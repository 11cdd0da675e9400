//! `uniq`: collapses runs of equal adjacent lines, optionally counting them.
use vstd::prelude::*;
use vstd::utf8::valid_utf8;
use crate::input::{Report, Source};
use crate::text::{
    decimal, first_line, lemma_readable_empty, lemma_readable_step, lemma_readable_stop,
    pad_left, push_right_aligned, read_fails, readable_lines, trim_end, trim_end_str, LineReader,
    ReadError,
};

verus! {

/// The settings of one run.
pub struct Options {
    pub in_file: String,
    pub count: bool,
}

/// What `uniq` prints for a run of `num` lines whose first is `text` (with
/// its newline): nothing for an empty run, else `text`, after the count
/// right-aligned in four columns and a space when counting.
pub open spec fn run_text(num: nat, text: Seq<char>, show_count: bool) -> Seq<char> {
    if num == 0 {
        seq![]
    } else if show_count {
        pad_left(decimal(num), 4) + seq![' '] + text
    } else {
        text
    }
}

/// Scans `lines` where the run so far started with `previous` and holds
/// `num` lines: what is printed on the way, and the run that is still open
/// at the end. A line continues the run when it equals `previous` once the
/// white space at the end of both is removed.
pub open spec fn uniq_scan(lines: Seq<Seq<char>>, previous: Seq<char>, num: nat, show_count: bool) -> (
    Seq<char>,
    Seq<char>,
    nat,
)
    decreases lines.len(),
{
    if lines.len() == 0 {
        (seq![], previous, num)
    } else if trim_end(lines[0]) != trim_end(previous) {
        let r = uniq_scan(lines.drop_first(), lines[0], 1, show_count);
        (run_text(num, previous, show_count) + r.0, r.1, r.2)
    } else {
        uniq_scan(lines.drop_first(), previous, num + 1, show_count)
    }
}

/// What `uniq` prints for an input holding `b`: the runs of its lines, the
/// last one only where every line could be read.
pub open spec fn uniq_out(b: Seq<u8>, show_count: bool) -> Seq<char> {
    let r = uniq_scan(readable_lines(b), seq![], 0, show_count);
    r.0 + if read_fails(b) {
        seq![]
    } else {
        run_text(r.2, r.1, show_count)
    }
}

/// Appends what `uniq` prints for one run.
fn push_run(out: &mut String, num: usize, text: &str, show_count: bool)
    ensures
        final(out)@ == old(out)@ + run_text(num as nat, text@, show_count),
{
    if num > 0 {
        if show_count {
            push_right_aligned(out, num as u64, 4);
            out.push(' ');
        }
        out.append(text);
    }
    assert(final(out)@ =~= old(out)@ + run_text(num as nat, text@, show_count));
}

/// Collapses the runs of one input; `false` where a line is not UTF-8.
fn uniq_one(out: &mut String, data: &Vec<u8>, show_count: bool) -> (ok: bool)
    ensures
        final(out)@ == old(out)@ + uniq_out(data@, show_count),
        ok == !read_fails(data@),
{
    let mut reader = LineReader::new(data.clone());
    let mut previous = String::new();
    let mut num: usize = 0;
    let ghost whole = uniq_scan(readable_lines(data@), seq![], 0, show_count);
    let total = data.len();
    loop
        invariant
            total == data@.len(),
            whole == uniq_scan(readable_lines(data@), seq![], 0, show_count),
            num + reader@.len() <= data@.len(),
            ({
                let r = uniq_scan(readable_lines(reader@), previous@, num as nat, show_count);
                &&& whole.0 == out@.skip(old(out)@.len() as int) + r.0
                &&& out@.len() >= old(out)@.len()
                &&& out@.take(old(out)@.len() as int) == old(out)@
                &&& whole.1 == r.1
                &&& whole.2 == r.2
            }),
            read_fails(data@) == read_fails(reader@),
        decreases reader@.len(),
    {
        let ghost before = reader@;
        proof {
            if before.len() == 0 {
                lemma_readable_empty(before);
            } else if valid_utf8(first_line(before)) {
                lemma_readable_step(before);
            } else {
                lemma_readable_stop(before);
            }
        }
        match reader.read_raw_line() {
            Ok(Some(line)) => {
                let ghost lines = readable_lines(before);
                assert(lines[0] == line@);
                assert(lines.drop_first() =~= readable_lines(reader@));
                let ghost out_before = out@;
                let a = trim_end_str(line.as_str());
                let b = trim_end_str(previous.as_str());
                if a != b {
                    push_run(out, num, previous.as_str(), show_count);
                    previous = line;
                    num = 0;
                }
                num += 1;
                proof {
                    assert(out@.skip(old(out)@.len() as int) =~= out_before.skip(
                        old(out)@.len() as int,
                    ) + out@.skip(out_before.len() as int));
                    assert(out@.take(old(out)@.len() as int) =~= out_before.take(
                        old(out)@.len() as int,
                    ));
                }
            },
            Ok(None) => {
                push_run(out, num, previous.as_str(), show_count);
                assert(final(out)@ =~= old(out)@ + uniq_out(data@, show_count)) by {
                    assert(out@ =~= out@.take(old(out)@.len() as int) + out@.skip(old(out)@.len() as int));
                }
                return true;
            },
            Err(_) => {
                assert(final(out)@ =~= old(out)@ + uniq_out(data@, show_count)) by {
                    assert(out@ =~= out@.take(old(out)@.len() as int) + out@.skip(old(out)@.len() as int));
                }
                return false;
            },
        }
    }
}

/// Runs `uniq` over `source`, the contents of `options.in_file`.
pub fn run(options: &Options, source: &Source) -> (r: Report)
    ensures
        r.err@ == Seq::<char>::empty(),
        match *source {
            Source::Unavailable(e) => {
                &&& r.out@ == Seq::<char>::empty()
                &&& r.failure matches Some(m) && m@ == options.in_file@ + seq![':', ' '] + e@
            },
            Source::Unreadable(e) => {
                &&& r.out@ == Seq::<char>::empty()
                &&& r.failure matches Some(m) && m@ == e@
            },
            Source::Contents(b) => {
                &&& r.out@ == uniq_out(b@, options.count)
                &&& r.failure is Some <==> read_fails(b@)
                &&& r.failure matches Some(m) ==> m@ == "stream did not contain valid UTF-8"@
            },
        },
{
    let mut out = String::new();
    match source {
        Source::Unavailable(e) => {
            let mut m = options.in_file.clone();
            m.push(':');
            m.push(' ');
            m.append(e.as_str());
            Report { out, err: String::new(), failure: Some(m) }
        },
        Source::Unreadable(e) => Report { out, err: String::new(), failure: Some(e.clone()) },
        Source::Contents(data) => {
            let ok = uniq_one(&mut out, data, options.count);
            let failure = if ok {
                None
            } else {
                Some(ReadError::InvalidUtf8.message())
            };
            Report { out, err: String::new(), failure }
        },
    }
}


/// The runs of `lines` where the open run started with `previous` and holds
/// `num` lines: each run's first line and its number of lines, in order, the
/// run still open at the end last.
pub open spec fn uniq_runs(lines: Seq<Seq<char>>, previous: Seq<char>, num: nat) -> Seq<(Seq<char>, nat)>
    decreases lines.len(),
{
    if lines.len() == 0 {
        seq![(previous, num)]
    } else if trim_end(lines[0]) != trim_end(previous) {
        seq![(previous, num)] + uniq_runs(lines.drop_first(), lines[0], 1)
    } else {
        uniq_runs(lines.drop_first(), previous, num + 1)
    }
}

/// The total number of lines of `runs`.
pub open spec fn run_total(runs: Seq<(Seq<char>, nat)>) -> nat
    decreases runs.len(),
{
    if runs.len() == 0 {
        0
    } else {
        runs[0].1 + run_total(runs.drop_first())
    }
}

/// What `uniq` prints for `runs`, one after the other.
pub open spec fn runs_text(runs: Seq<(Seq<char>, nat)>, show_count: bool) -> Seq<char>
    decreases runs.len(),
{
    if runs.len() == 0 {
        seq![]
    } else {
        run_text(runs[0].1, runs[0].0, show_count) + runs_text(runs.drop_first(), show_count)
    }
}

proof fn lemma_runs(lines: Seq<Seq<char>>, previous: Seq<char>, num: nat, show_count: bool)
    ensures
        run_total(uniq_runs(lines, previous, num)) == num + lines.len(),
        ({
            let r = uniq_scan(lines, previous, num, show_count);
            runs_text(uniq_runs(lines, previous, num), show_count) == r.0 + run_text(r.2, r.1, show_count)
        }),
    decreases lines.len(),
{
    let single = seq![(previous, num)];
    assert(single.drop_first() =~= Seq::<(Seq<char>, nat)>::empty());
    assert(single[0] == (previous, num));
    assert(runs_text(single.drop_first(), show_count) =~= Seq::<char>::empty());
    assert(run_total(single.drop_first()) == 0);
    if lines.len() == 0 {
        assert(uniq_runs(lines, previous, num) == single);
        assert(runs_text(single, show_count) =~= run_text(num, previous, show_count));
    } else if trim_end(lines[0]) != trim_end(previous) {
        let rest = uniq_runs(lines.drop_first(), lines[0], 1);
        lemma_runs(lines.drop_first(), lines[0], 1, show_count);
        assert((single + rest).drop_first() =~= rest);
        assert((single + rest)[0] == (previous, num));
        let r = uniq_scan(lines.drop_first(), lines[0], 1, show_count);
        assert(runs_text(single + rest, show_count) =~= run_text(num, previous, show_count) + (r.0
            + run_text(r.2, r.1, show_count)));
    } else {
        lemma_runs(lines.drop_first(), previous, num + 1, show_count);
    }
}

/// For an input that can be read to its end, `uniq` prints its runs one after
/// the other, and the runs hold every line once: their lengths add up to
/// the number of lines.
pub proof fn runs_cover_every_line(b: Seq<u8>, show_count: bool)
    requires
        !read_fails(b),
    ensures
        uniq_out(b, show_count) == runs_text(uniq_runs(readable_lines(b), seq![], 0), show_count),
        run_total(uniq_runs(readable_lines(b), seq![], 0)) == readable_lines(b).len(),
{
    lemma_runs(readable_lines(b), seq![], 0, show_count);
}

/// `n` copies of `l`.
pub open spec fn copies(l: Seq<char>, n: nat) -> Seq<Seq<char>> {
    Seq::new(n, |i: int| l)
}

/// Each run's first line, with its trailing white space removed, once for
/// every line the run holds.
pub open spec fn expand_runs(runs: Seq<(Seq<char>, nat)>) -> Seq<Seq<char>>
    decreases runs.len(),
{
    if runs.len() == 0 {
        seq![]
    } else {
        copies(trim_end(runs[0].0), runs[0].1) + expand_runs(runs.drop_first())
    }
}

proof fn lemma_runs_head(lines: Seq<Seq<char>>, previous: Seq<char>, num: nat)
    ensures
        uniq_runs(lines, previous, num).len() >= 1,
        uniq_runs(lines, previous, num)[0].0 == previous,
        uniq_runs(lines, previous, num)[0].1 >= num,
    decreases lines.len(),
{
    if lines.len() > 0 && trim_end(lines[0]) == trim_end(previous) {
        lemma_runs_head(lines.drop_first(), previous, num + 1);
    }
}

proof fn lemma_runs_shape(lines: Seq<Seq<char>>, previous: Seq<char>, num: nat)
    ensures
        ({
            let runs = uniq_runs(lines, previous, num);
            &&& expand_runs(runs) == copies(trim_end(previous), num) + lines.map_values(
                |l: Seq<char>| trim_end(l),
            )
            &&& forall|j: int| 0 < j < runs.len() ==> trim_end(#[trigger] runs[j].0) != trim_end(runs[j - 1].0)
            &&& forall|j: int| 0 < j < runs.len() ==> #[trigger] runs[j].1 >= 1
        }),
    decreases lines.len(),
{
    let t = |l: Seq<char>| trim_end(l);
    let runs = uniq_runs(lines, previous, num);
    if lines.len() == 0 {
        let single = seq![(previous, num)];
        assert(runs == single);
        assert(single.drop_first() =~= Seq::<(Seq<char>, nat)>::empty());
        assert(expand_runs(Seq::<(Seq<char>, nat)>::empty()) == Seq::<Seq<char>>::empty());
        assert(lines.map_values(t) =~= Seq::<Seq<char>>::empty());
        assert(single[0] == (previous, num));
        assert(expand_runs(single) =~= copies(trim_end(previous), num) + lines.map_values(t));
    } else {
        let tail = lines.drop_first();
        assert(lines.map_values(t) =~= seq![trim_end(lines[0])] + tail.map_values(t));
        if trim_end(lines[0]) != trim_end(previous) {
            let rest = uniq_runs(tail, lines[0], 1);
            lemma_runs_shape(tail, lines[0], 1);
            lemma_runs_head(tail, lines[0], 1);
            let single = seq![(previous, num)];
            assert(runs == single + rest);
            assert((single + rest).drop_first() =~= rest);
            assert((single + rest)[0] == (previous, num));
            assert(copies(trim_end(lines[0]), 1) =~= seq![trim_end(lines[0])]);
            assert(expand_runs(runs) =~= copies(trim_end(previous), num) + lines.map_values(t));
            assert forall|j: int| 0 < j < runs.len() implies trim_end(#[trigger] runs[j].0) != trim_end(
                runs[j - 1].0,
            ) && runs[j].1 >= 1 by {
                assert(runs[j] == rest[j - 1]);
                if j > 1 {
                    assert(runs[j - 1] == rest[j - 2]);
                }
            }
        } else {
            lemma_runs_shape(tail, previous, num + 1);
            assert(copies(trim_end(previous), num + 1) =~= copies(trim_end(previous), num) + seq![
                trim_end(lines[0]),
            ]);
        }
    }
}

/// The runs `uniq` forms hold every line exactly where it stands, and only
/// lines equal to the run's first once trailing white space is removed:
/// writing each run's trimmed first line once per line it holds gives back
/// the trimmed lines in order (after the empty run the scan starts with);
/// two neighbouring runs have different trimmed first lines; and every run
/// after the first holds at least one line.
pub proof fn runs_hold_equal_lines(lines: Seq<Seq<char>>)
    ensures
        ({
            let runs = uniq_runs(lines, seq![], 0);
            &&& expand_runs(runs) == lines.map_values(|l: Seq<char>| trim_end(l))
            &&& forall|j: int| 0 < j < runs.len() ==> trim_end(#[trigger] runs[j].0) != trim_end(runs[j - 1].0)
            &&& forall|j: int| 0 < j < runs.len() ==> #[trigger] runs[j].1 >= 1
        }),
{
    lemma_runs_shape(lines, seq![], 0);
    assert(copies(trim_end(seq![]), 0) =~= Seq::<Seq<char>>::empty());
    assert(Seq::<Seq<char>>::empty() + lines.map_values(|l: Seq<char>| trim_end(l)) =~= lines.map_values(
        |l: Seq<char>| trim_end(l),
    ));
}

} // verus!
