//! `comm`: compares two sorted files line by line.
use vstd::prelude::*;
use crate::input::{opt_view, Report, Source};
use crate::text::{chars_of, is_stdin_name, read_fails, read_trimmed, trimmed_lines, LineReader, ReadError};

verus! {

/// The settings of one run.
pub struct Options {
    pub file1: String,
    pub file2: String,
    pub show_col1: bool,
    pub show_col2: bool,
    pub show_col3: bool,
    pub insensitive: bool,
    pub delimiter: String,
}

/// The three columns of `comm`: lines only in the first file, lines only in
/// the second, and lines in both.
#[derive(Debug, Clone, Copy, PartialEq, Eq)]
pub enum Column {
    Col1,
    Col2,
    Col3,
}

/// The result of comparing two lines.
#[derive(Debug, Clone, Copy, PartialEq, Eq)]
pub enum Order {
    Less,
    Equal,
    Greater,
}

/// The lowercase mapping of `c`, as `char::to_lowercase` yields it.
pub uninterp spec fn char_lowercase(c: char) -> Seq<char>;

/// `char::to_lowercase`: the characters of the lowercase mapping of `c`. The
/// mapping is Unicode's table, so the contract names it and says no more.
#[verifier::external_body]
fn lowercase_of(c: char) -> (r: String)
    ensures
        r@ == char_lowercase(c),
{
    c.to_lowercase().collect()
}

/// `s` with each character replaced by its lowercase mapping.
pub open spec fn lowercase(s: Seq<char>) -> Seq<char>
    decreases s.len(),
{
    if s.len() == 0 {
        seq![]
    } else {
        char_lowercase(s[0]) + lowercase(s.drop_first())
    }
}

/// Lexicographic order by code point, which is the order of `str` (UTF-8
/// keeps the order of code points) and of `Iterator::cmp` over `char`s.
pub open spec fn lex_order(a: Seq<char>, b: Seq<char>) -> Order
    decreases a.len(),
{
    if a.len() == 0 && b.len() == 0 {
        Order::Equal
    } else if a.len() == 0 {
        Order::Less
    } else if b.len() == 0 {
        Order::Greater
    } else if (a[0] as u32) < (b[0] as u32) {
        Order::Less
    } else if (a[0] as u32) > (b[0] as u32) {
        Order::Greater
    } else {
        lex_order(a.drop_first(), b.drop_first())
    }
}

/// How `comm` orders two lines: as strings, or as their lowercase mappings.
pub open spec fn line_order(a: Seq<char>, b: Seq<char>, insensitive: bool) -> Order {
    if insensitive {
        lex_order(lowercase(a), lowercase(b))
    } else {
        lex_order(a, b)
    }
}

/// The characters of `s`, lowercased.
fn lowercase_chars(s: &str) -> (r: Vec<char>)
    ensures
        r@ == lowercase(s@),
{
    let v = chars_of(s);
    let mut r: Vec<char> = Vec::new();
    let mut j: usize = 0;
    assert(v@.skip(0) =~= v@);
    while j < v.len()
        invariant
            j <= v.len(),
            v@ == s@,
            lowercase(s@) == r@ + lowercase(v@.skip(j as int)),
        decreases v.len() - j,
    {
        assert(v@.skip(j as int).drop_first() =~= v@.skip(j + 1));
        let low = chars_of(lowercase_of(v[j]).as_str());
        let mut k: usize = 0;
        let ghost r0 = r@;
        while k < low.len()
            invariant
                k <= low.len(),
                r@ == r0 + low@.take(k as int),
            decreases low.len() - k,
        {
            r.push(low[k]);
            k += 1;
            assert(r@ =~= r0 + low@.take(k as int));
        }
        assert(low@.take(low.len() as int) =~= low@);
        assert(r@ + lowercase(v@.skip(j + 1)) =~= r0 + lowercase(v@.skip(j as int)));
        j += 1;
    }
    assert(v@.skip(v.len() as int).len() == 0);
    assert(r@ =~= lowercase(s@));
    r
}

/// Compares two sequences of characters lexicographically by code point.
fn lex_order_of(a: &Vec<char>, b: &Vec<char>) -> (r: Order)
    ensures
        r == lex_order(a@, b@),
{
    let mut i: usize = 0;
    assert(a@.skip(0) =~= a@);
    assert(b@.skip(0) =~= b@);
    while i < a.len() && i < b.len()
        invariant
            i <= a.len(),
            i <= b.len(),
            lex_order(a@, b@) == lex_order(a@.skip(i as int), b@.skip(i as int)),
        decreases a.len() - i,
    {
        let x = a[i] as u32;
        let y = b[i] as u32;
        if x < y {
            return Order::Less;
        }
        if x > y {
            return Order::Greater;
        }
        assert(a@.skip(i as int).drop_first() =~= a@.skip(i + 1));
        assert(b@.skip(i as int).drop_first() =~= b@.skip(i + 1));
        i += 1;
    }
    if i == a.len() && i == b.len() {
        Order::Equal
    } else if i == a.len() {
        Order::Less
    } else {
        Order::Greater
    }
}

/// Compares two lines as `comm` does.
pub fn compare_lines(a: &str, b: &str, insensitive: bool) -> (r: Order)
    ensures
        r == line_order(a@, b@, insensitive),
{
    if insensitive {
        lex_order_of(&lowercase_chars(a), &lowercase_chars(b))
    } else {
        lex_order_of(&chars_of(a), &chars_of(b))
    }
}

/// How many delimiters go before a line of `col`: one for each column to its
/// left that is shown.
pub open spec fn left_columns(col: Column, o: Options) -> nat {
    match col {
        Column::Col1 => 0,
        Column::Col2 => if o.show_col1 {
            1
        } else {
            0
        },
        Column::Col3 => (if o.show_col1 {
            1nat
        } else {
            0nat
        }) + (if o.show_col2 {
            1nat
        } else {
            0nat
        }),
    }
}

/// Whether `col` is shown.
pub open spec fn shown(col: Column, o: Options) -> bool {
    match col {
        Column::Col1 => o.show_col1,
        Column::Col2 => o.show_col2,
        Column::Col3 => o.show_col3,
    }
}

/// `s` repeated `n` times.
pub open spec fn repeat(s: Seq<char>, n: nat) -> Seq<char>
    decreases n,
{
    if n == 0 {
        seq![]
    } else {
        repeat(s, (n - 1) as nat) + s
    }
}

/// What `comm` prints for `val` in `col`: nothing where the column is hidden,
/// else the delimiters of the shown columns to its left, `val` and a newline.
pub open spec fn column_text(col: Column, val: Seq<char>, o: Options) -> Seq<char> {
    if shown(col, o) {
        repeat(o.delimiter@, left_columns(col, o)) + val + seq!['\n']
    } else {
        seq![]
    }
}

/// Reading the next of `lines`, which end in a failure when `fails`: the
/// line and what is left, the end, or `None` for the failure.
pub open spec fn next_line(lines: Seq<Seq<char>>, fails: bool) -> Option<(Option<Seq<char>>, Seq<Seq<char>>)> {
    if lines.len() > 0 {
        Some((Some(lines[0]), lines.drop_first()))
    } else if fails {
        None
    } else {
        Some((None, lines))
    }
}

/// The size of what is left to merge.
pub open spec fn merge_size(c1: Option<Seq<char>>, x: Seq<Seq<char>>, c2: Option<Seq<char>>, y: Seq<Seq<char>>) -> int {
    x.len() + y.len() + (if c1 is Some {
        1int
    } else {
        0int
    }) + (if c2 is Some {
        1int
    } else {
        0int
    })
}

/// The merge of two files: with current lines `c1` and `c2` and the lines
/// `x` and `y` still to read (whose reading fails at their end when `xf`,
/// `yf`), what is printed and whether a read failed. The smaller current
/// line goes to its file's column and is replaced by the next line of its
/// file; equal lines go to the third column and both are replaced.
pub open spec fn merge(
    c1: Option<Seq<char>>,
    x: Seq<Seq<char>>,
    xf: bool,
    c2: Option<Seq<char>>,
    y: Seq<Seq<char>>,
    yf: bool,
    o: Options,
) -> (Seq<char>, bool)
    decreases merge_size(c1, x, c2, y),
{
    match (c1, c2) {
        (Some(v1), Some(v2)) => match line_order(v1, v2, o.insensitive) {
            Order::Equal => {
                let p = column_text(Column::Col3, v1, o);
                match next_line(x, xf) {
                    None => (p, true),
                    Some((n1, x2)) => match next_line(y, yf) {
                        None => (p, true),
                        Some((n2, y2)) => {
                            let r = merge(n1, x2, xf, n2, y2, yf, o);
                            (p + r.0, r.1)
                        },
                    },
                }
            },
            Order::Less => {
                let p = column_text(Column::Col1, v1, o);
                match next_line(x, xf) {
                    None => (p, true),
                    Some((n1, x2)) => {
                        let r = merge(n1, x2, xf, c2, y, yf, o);
                        (p + r.0, r.1)
                    },
                }
            },
            Order::Greater => {
                let p = column_text(Column::Col2, v2, o);
                match next_line(y, yf) {
                    None => (p, true),
                    Some((n2, y2)) => {
                        let r = merge(c1, x, xf, n2, y2, yf, o);
                        (p + r.0, r.1)
                    },
                }
            },
        },
        (Some(v1), None) => {
            let p = column_text(Column::Col1, v1, o);
            match next_line(x, xf) {
                None => (p, true),
                Some((n1, x2)) => {
                    let r = merge(n1, x2, xf, c2, y, yf, o);
                    (p + r.0, r.1)
                },
            }
        },
        (None, Some(v2)) => {
            let p = column_text(Column::Col2, v2, o);
            match next_line(y, yf) {
                None => (p, true),
                Some((n2, y2)) => {
                    let r = merge(c1, x, xf, n2, y2, yf, o);
                    (p + r.0, r.1)
                },
            }
        },
        (None, None) => (seq![], false),
    }
}

/// What `comm` prints for the files holding `b1` and `b2`, and whether a read
/// failed: the first line of each is read, then they are merged.
pub open spec fn comm_files(b1: Seq<u8>, b2: Seq<u8>, o: Options) -> (Seq<char>, bool) {
    match next_line(trimmed_lines(b1), read_fails(b1)) {
        None => (seq![], true),
        Some((c1, x)) => match next_line(trimmed_lines(b2), read_fails(b2)) {
            None => (seq![], true),
            Some((c2, y)) => merge(c1, x, read_fails(b1), c2, y, read_fails(b2), o),
        },
    }
}

/// The message when both files are standard input.
pub open spec fn both_stdin_message() -> Seq<char> {
    "Both input files cannot be STDIN (\"-\")"@
}

/// Standard output and the error that ends the run, if any: both files may
/// not be standard input, each must open, the first line of each must be
/// read (the first file's first), and then they are merged.
pub open spec fn comm_run(o: Options, s1: Source, s2: Source) -> (Seq<char>, Option<Seq<char>>) {
    if o.file1@ == seq!['-'] && o.file2@ == seq!['-'] {
        (seq![], Some(both_stdin_message()))
    } else {
        match (s1, s2) {
            (Source::Unavailable(e), _) => (seq![], Some(o.file1@ + seq![':', ' '] + e@)),
            (_, Source::Unavailable(e)) => (seq![], Some(o.file2@ + seq![':', ' '] + e@)),
            (Source::Unreadable(e), _) => (seq![], Some(e@)),
            (Source::Contents(b1), Source::Unreadable(e)) => (
                seq![],
                Some(
                    if next_line(trimmed_lines(b1@), read_fails(b1@)) is None {
                        "stream did not contain valid UTF-8"@
                    } else {
                        e@
                    },
                ),
            ),
            (Source::Contents(b1), Source::Contents(b2)) => {
                let r = comm_files(b1@, b2@, o);
                (r.0, if r.1 {
                    Some("stream did not contain valid UTF-8"@)
                } else {
                    None
                })
            },
        }
    }
}

/// Appends `val` in `col`.
fn push_column(out: &mut String, col: Column, val: &str, o: &Options)
    ensures
        final(out)@ == old(out)@ + column_text(col, val@, *o),
{
    let show = match col {
        Column::Col1 => o.show_col1,
        Column::Col2 => o.show_col2,
        Column::Col3 => o.show_col3,
    };
    if show {
        let left: usize = match col {
            Column::Col1 => 0,
            Column::Col2 => if o.show_col1 {
                1
            } else {
                0
            },
            Column::Col3 => (if o.show_col1 {
                1
            } else {
                0
            }) + (if o.show_col2 {
                1
            } else {
                0
            }),
        };
        let mut k: usize = 0;
        let ghost start = out@;
        while k < left
            invariant
                k <= left,
                left == left_columns(col, *o),
                out@ == start + repeat(o.delimiter@, k as nat),
            decreases left - k,
        {
            out.append(o.delimiter.as_str());
            k += 1;
        }
        out.append(val);
        out.push('\n');
    }
    assert(final(out)@ =~= old(out)@ + column_text(col, val@, *o));
}

/// Runs `comm` over `source1` and `source2`, the contents of `options.file1`
/// and `options.file2`.
pub fn run(options: &Options, source1: &Source, source2: &Source) -> (r: Report)
    ensures
        r.out@ == comm_run(*options, *source1, *source2).0,
        opt_view(r.failure) == comm_run(*options, *source1, *source2).1,
        r.err@ == Seq::<char>::empty(),
{
    let mut out = String::new();
    if is_stdin_name(options.file1.as_str()) && is_stdin_name(options.file2.as_str()) {
        let m = String::from_str("Both input files cannot be STDIN (\"-\")");
        return Report { out, err: String::new(), failure: Some(m) };
    }
    let (data1, data2) = match (source1, source2) {
        (Source::Unavailable(e), _) => {
            let mut m = options.file1.clone();
            m.push(':');
            m.push(' ');
            m.append(e.as_str());
            return Report { out, err: String::new(), failure: Some(m) };
        },
        (_, Source::Unavailable(e)) => {
            let mut m = options.file2.clone();
            m.push(':');
            m.push(' ');
            m.append(e.as_str());
            return Report { out, err: String::new(), failure: Some(m) };
        },
        (Source::Unreadable(e), _) => {
            return Report { out, err: String::new(), failure: Some(e.clone()) };
        },
        (Source::Contents(d1), Source::Unreadable(e)) => {
            let mut reader1 = LineReader::new(d1.clone());
            let mut line1: Option<String> = None;
            let m = if advance(&mut reader1, &mut line1) {
                e.clone()
            } else {
                ReadError::InvalidUtf8.message()
            };
            return Report { out, err: String::new(), failure: Some(m) };
        },
        (Source::Contents(d1), Source::Contents(d2)) => (d1, d2),
    };
    let ok = comm_merge(&mut out, data1, data2, options);
    let failure = if ok {
        None
    } else {
        Some(ReadError::InvalidUtf8.message())
    };
    Report { out, err: String::new(), failure }
}

/// Reads the next line of `reader` into `line`; `false` where the read fails.
fn advance(reader: &mut LineReader, line: &mut Option<String>) -> (ok: bool)
    ensures
        next_line(trimmed_lines(old(reader)@), read_fails(old(reader)@)) is None ==> !ok,
        next_line(trimmed_lines(old(reader)@), read_fails(old(reader)@)) matches Some((n, rest)) ==> {
            &&& ok
            &&& opt_view(*final(line)) == n
            &&& trimmed_lines(final(reader)@) == rest
            &&& read_fails(final(reader)@) == read_fails(old(reader)@)
        },
{
    match read_trimmed(reader) {
        Ok(l) => {
            *line = l;
            true
        },
        Err(_) => false,
    }
}

/// What one step of the merge did.
enum Step {
    Continue,
    Done,
    Failed,
}

/// The state of a merge: the current lines and what is left of each file.
pub open spec fn merge_of(
    line1: Option<String>,
    r1: Seq<u8>,
    line2: Option<String>,
    r2: Seq<u8>,
    o: Options,
) -> (Seq<char>, bool) {
    merge(
        opt_view(line1),
        trimmed_lines(r1),
        read_fails(r1),
        opt_view(line2),
        trimmed_lines(r2),
        read_fails(r2),
        o,
    )
}

/// One step of the merge: prints the line that is due and reads the next.
#[verifier::rlimit(40)]
fn merge_step(
    out: &mut String,
    reader1: &mut LineReader,
    line1: &mut Option<String>,
    reader2: &mut LineReader,
    line2: &mut Option<String>,
    o: &Options,
) -> (r: Step)
    ensures
        ({
            let before = merge_of(*old(line1), old(reader1)@, *old(line2), old(reader2)@, *o);
            let after = merge_of(*final(line1), final(reader1)@, *final(line2), final(reader2)@, *o);
            &&& r is Continue ==> {
                &&& old(out)@ + before.0 == final(out)@ + after.0
                &&& before.1 == after.1
                &&& read_fails(final(reader1)@) == read_fails(old(reader1)@)
                &&& read_fails(final(reader2)@) == read_fails(old(reader2)@)
                &&& merge_size(opt_view(*final(line1)), trimmed_lines(final(reader1)@), opt_view(*final(line2)), trimmed_lines(final(reader2)@))
                    < merge_size(opt_view(*old(line1)), trimmed_lines(old(reader1)@), opt_view(*old(line2)), trimmed_lines(old(reader2)@))
            }
            &&& r is Done ==> final(out)@ == old(out)@ + before.0 && !before.1
            &&& r is Failed ==> final(out)@ == old(out)@ + before.0 && before.1
        }),
{
    let ghost x = trimmed_lines(reader1@);
    let ghost y = trimmed_lines(reader2@);
    let ghost xf = read_fails(reader1@);
    let ghost yf = read_fails(reader2@);
    let col = match (&*line1, &*line2) {
        (Some(v1), Some(v2)) => compare_lines(v1.as_str(), v2.as_str(), o.insensitive),
        (Some(_), None) => Order::Less,
        (None, Some(_)) => Order::Greater,
        (None, None) => {
            return Step::Done;
        },
    };
    match col {
        Order::Equal => {
            match &*line1 {
                Some(v1) => push_column(out, Column::Col3, v1.as_str(), o),
                None => {},
            }
            if !advance(reader1, line1) {
                assert(final(out)@ =~= old(out)@ + column_text(Column::Col3, opt_view(*old(line1))->0, *o));
                return Step::Failed;
            }
            if !advance(reader2, line2) {
                assert(final(out)@ =~= old(out)@ + column_text(Column::Col3, opt_view(*old(line1))->0, *o));
                return Step::Failed;
            }
            Step::Continue
        },
        Order::Less => {
            match &*line1 {
                Some(v1) => push_column(out, Column::Col1, v1.as_str(), o),
                None => {},
            }
            if !advance(reader1, line1) {
                assert(final(out)@ =~= old(out)@ + column_text(Column::Col1, opt_view(*old(line1))->0, *o));
                return Step::Failed;
            }
            Step::Continue
        },
        Order::Greater => {
            match &*line2 {
                Some(v2) => push_column(out, Column::Col2, v2.as_str(), o),
                None => {},
            }
            if !advance(reader2, line2) {
                assert(final(out)@ =~= old(out)@ + column_text(Column::Col2, opt_view(*old(line2))->0, *o));
                return Step::Failed;
            }
            Step::Continue
        },
    }
}

/// Merges the files holding `data1` and `data2`; `false` where a read failed.
fn comm_merge(out: &mut String, data1: &Vec<u8>, data2: &Vec<u8>, o: &Options) -> (ok: bool)
    ensures
        final(out)@ == old(out)@ + comm_files(data1@, data2@, *o).0,
        ok == !comm_files(data1@, data2@, *o).1,
{
    let mut reader1 = LineReader::new(data1.clone());
    let mut reader2 = LineReader::new(data2.clone());
    let mut line1: Option<String> = None;
    let mut line2: Option<String> = None;
    if !advance(&mut reader1, &mut line1) {
        return false;
    }
    if !advance(&mut reader2, &mut line2) {
        return false;
    }
    let ghost whole = comm_files(data1@, data2@, *o);
    loop
        invariant
            whole == comm_files(data1@, data2@, *o),
            ({
                let r = merge_of(line1, reader1@, line2, reader2@, *o);
                old(out)@ + whole.0 == out@ + r.0 && whole.1 == r.1
            }),
        decreases merge_size(opt_view(line1), trimmed_lines(reader1@), opt_view(line2), trimmed_lines(reader2@)),
    {
        match merge_step(out, &mut reader1, &mut line1, &mut reader2, &mut line2, o) {
            Step::Continue => {},
            Step::Done => {
                return true;
            },
            Step::Failed => {
                return false;
            },
        }
    }
}


/// The first of `x`, if any.
pub open spec fn head(x: Seq<Seq<char>>) -> Option<Seq<char>> {
    if x.len() > 0 {
        Some(x[0])
    } else {
        None
    }
}

/// `x` without its first, if any.
pub open spec fn tail(x: Seq<Seq<char>>) -> Seq<Seq<char>> {
    if x.len() > 0 {
        x.drop_first()
    } else {
        x
    }
}

/// The line `c` holds, as a sequence of none or one.
pub open spec fn opt_seq(c: Option<Seq<char>>) -> Seq<Seq<char>> {
    match c {
        Some(v) => seq![v],
        None => seq![],
    }
}

/// The column each line goes to as two files merge, when every line can be
/// read: the columns and lines in the order `comm` prints them, hidden
/// columns included.
pub open spec fn merge_trace(
    c1: Option<Seq<char>>,
    x: Seq<Seq<char>>,
    c2: Option<Seq<char>>,
    y: Seq<Seq<char>>,
    insensitive: bool,
) -> Seq<(Column, Seq<char>)>
    decreases merge_size(c1, x, c2, y),
{
    match (c1, c2) {
        (Some(v1), Some(v2)) => match line_order(v1, v2, insensitive) {
            Order::Equal => seq![(Column::Col3, v1)] + merge_trace(head(x), tail(x), head(y), tail(y), insensitive),
            Order::Less => seq![(Column::Col1, v1)] + merge_trace(head(x), tail(x), c2, y, insensitive),
            Order::Greater => seq![(Column::Col2, v2)] + merge_trace(c1, x, head(y), tail(y), insensitive),
        },
        (Some(v1), None) => seq![(Column::Col1, v1)] + merge_trace(head(x), tail(x), c2, y, insensitive),
        (None, Some(v2)) => seq![(Column::Col2, v2)] + merge_trace(c1, x, head(y), tail(y), insensitive),
        (None, None) => seq![],
    }
}

/// What `comm` prints for `trace`.
pub open spec fn trace_text(t: Seq<(Column, Seq<char>)>, o: Options) -> Seq<char>
    decreases t.len(),
{
    if t.len() == 0 {
        seq![]
    } else {
        column_text(t[0].0, t[0].1, o) + trace_text(t.drop_first(), o)
    }
}

/// The lines of `t` in the columns of the first file: the first and the third.
pub open spec fn first_file_lines(t: Seq<(Column, Seq<char>)>) -> Seq<Seq<char>>
    decreases t.len(),
{
    if t.len() == 0 {
        seq![]
    } else {
        (if t[0].0 != Column::Col2 {
            seq![t[0].1]
        } else {
            seq![]
        }) + first_file_lines(t.drop_first())
    }
}

/// The lines of `t` in the columns of the second file: the second and the third.
pub open spec fn second_file_lines(t: Seq<(Column, Seq<char>)>) -> Seq<Seq<char>>
    decreases t.len(),
{
    if t.len() == 0 {
        seq![]
    } else {
        (if t[0].0 != Column::Col1 {
            seq![t[0].1]
        } else {
            seq![]
        }) + second_file_lines(t.drop_first())
    }
}

/// Lines that compare equal by code point are the same line.
pub proof fn lemma_lex_equal(a: Seq<char>, b: Seq<char>)
    ensures
        lex_order(a, b) == Order::Equal ==> a == b,
    decreases a.len(),
{
    if a.len() > 0 && b.len() > 0 && (a[0] as u32) == (b[0] as u32) {
        lemma_lex_equal(a.drop_first(), b.drop_first());
        if lex_order(a, b) == Order::Equal {
            vstd::utf8::char_u32_cast(a[0], a[0] as u32);
            vstd::utf8::char_u32_cast(b[0], b[0] as u32);
            assert(a =~= seq![a[0]] + a.drop_first());
            assert(b =~= seq![b[0]] + b.drop_first());
        }
    }
}

proof fn lemma_head_tail(x: Seq<Seq<char>>)
    ensures
        opt_seq(head(x)) + tail(x) == x,
        x.len() > 0 ==> merge_size(head(x), tail(x), None, seq![]) == x.len(),
{
    if x.len() > 0 {
        assert(seq![x[0]] + x.drop_first() =~= x);
    } else {
        assert(Seq::<Seq<char>>::empty() + x =~= x);
    }
}

proof fn lemma_trace_step(e: (Column, Seq<char>), t: Seq<(Column, Seq<char>)>, o: Options)
    ensures
        trace_text(seq![e] + t, o) == column_text(e.0, e.1, o) + trace_text(t, o),
        first_file_lines(seq![e] + t) == (if e.0 != Column::Col2 {
            seq![e.1]
        } else {
            seq![]
        }) + first_file_lines(t),
        second_file_lines(seq![e] + t) == (if e.0 != Column::Col1 {
            seq![e.1]
        } else {
            seq![]
        }) + second_file_lines(t),
{
    assert((seq![e] + t).drop_first() =~= t);
    assert((seq![e] + t)[0] == e);
}

proof fn lemma_merge_trace(
    c1: Option<Seq<char>>,
    x: Seq<Seq<char>>,
    c2: Option<Seq<char>>,
    y: Seq<Seq<char>>,
    o: Options,
)
    requires
        c1 is None ==> x.len() == 0,
        c2 is None ==> y.len() == 0,
    ensures
        ({
            let t = merge_trace(c1, x, c2, y, o.insensitive);
            let m = merge(c1, x, false, c2, y, false, o);
            &&& m.0 == trace_text(t, o)
            &&& !m.1
            &&& first_file_lines(t) == opt_seq(c1) + x
            &&& second_file_lines(t).len() == opt_seq(c2).len() + y.len()
            &&& !o.insensitive ==> second_file_lines(t) == opt_seq(c2) + y
        }),
    decreases merge_size(c1, x, c2, y),
{
    lemma_head_tail(x);
    lemma_head_tail(y);
    match (c1, c2) {
        (Some(v1), Some(v2)) => {
            match line_order(v1, v2, o.insensitive) {
                Order::Equal => {
                    lemma_merge_trace(head(x), tail(x), head(y), tail(y), o);
                    let t = merge_trace(head(x), tail(x), head(y), tail(y), o.insensitive);
                    lemma_trace_step((Column::Col3, v1), t, o);
                    if !o.insensitive {
                        lemma_lex_equal(v1, v2);
                    }
                    assert(seq![v1] + (opt_seq(head(x)) + tail(x)) =~= opt_seq(c1) + x);
                    assert(!o.insensitive ==> seq![v1] + (opt_seq(head(y)) + tail(y)) =~= opt_seq(c2) + y);
                },
                Order::Less => {
                    lemma_merge_trace(head(x), tail(x), c2, y, o);
                    let t = merge_trace(head(x), tail(x), c2, y, o.insensitive);
                    lemma_trace_step((Column::Col1, v1), t, o);
                    assert(seq![v1] + (opt_seq(head(x)) + tail(x)) =~= opt_seq(c1) + x);
                    assert(Seq::<Seq<char>>::empty() + second_file_lines(t) =~= second_file_lines(t));
                },
                Order::Greater => {
                    lemma_merge_trace(c1, x, head(y), tail(y), o);
                    let t = merge_trace(c1, x, head(y), tail(y), o.insensitive);
                    lemma_trace_step((Column::Col2, v2), t, o);
                    assert(seq![v2] + (opt_seq(head(y)) + tail(y)) =~= opt_seq(c2) + y);
                    assert(Seq::<Seq<char>>::empty() + first_file_lines(t) =~= first_file_lines(t));
                },
            }
        },
        (Some(v1), None) => {
            lemma_merge_trace(head(x), tail(x), c2, y, o);
            let t = merge_trace(head(x), tail(x), c2, y, o.insensitive);
            lemma_trace_step((Column::Col1, v1), t, o);
            assert(seq![v1] + (opt_seq(head(x)) + tail(x)) =~= opt_seq(c1) + x);
            assert(Seq::<Seq<char>>::empty() + second_file_lines(t) =~= second_file_lines(t));
        },
        (None, Some(v2)) => {
            lemma_merge_trace(c1, x, head(y), tail(y), o);
            let t = merge_trace(c1, x, head(y), tail(y), o.insensitive);
            lemma_trace_step((Column::Col2, v2), t, o);
            assert(seq![v2] + (opt_seq(head(y)) + tail(y)) =~= opt_seq(c2) + y);
            assert(Seq::<Seq<char>>::empty() + first_file_lines(t) =~= first_file_lines(t));
        },
        (None, None) => {
            assert(opt_seq(c1) + x =~= Seq::<Seq<char>>::empty());
            assert(opt_seq(c2) + y =~= Seq::<Seq<char>>::empty());
        },
    }
}

/// Where every line of both files can be read, `comm` sends each line of
/// the first file, in order, to the first or the third column, and each line
/// of the second file to the second or the third: the trace of the merge
/// holds the first file's lines in columns one and three and as many
/// entries in columns two and three as the second file has lines (the
/// second file's own lines, when case matters), and what is printed is that
/// trace with the hidden columns left out.
pub proof fn every_line_lands_once(b1: Seq<u8>, b2: Seq<u8>, o: Options)
    requires
        !read_fails(b1),
        !read_fails(b2),
    ensures
        ({
            let l1 = trimmed_lines(b1);
            let l2 = trimmed_lines(b2);
            let t = merge_trace(head(l1), tail(l1), head(l2), tail(l2), o.insensitive);
            &&& !comm_files(b1, b2, o).1
            &&& comm_files(b1, b2, o).0 == trace_text(t, o)
            &&& first_file_lines(t) == l1
            &&& second_file_lines(t).len() == l2.len()
            &&& !o.insensitive ==> second_file_lines(t) == l2
        }),
{
    let l1 = trimmed_lines(b1);
    let l2 = trimmed_lines(b2);
    lemma_head_tail(l1);
    lemma_head_tail(l2);
    lemma_merge_trace(head(l1), tail(l1), head(l2), tail(l2), o);
}

proof fn lemma_lex_first_difference(a: Seq<char>, b: Seq<char>, k: int)
    requires
        0 <= k < a.len(),
        k < b.len(),
        a.take(k) == b.take(k),
        (a[k] as u32) != (b[k] as u32),
    ensures
        lex_order(a, b) == if (a[k] as u32) < (b[k] as u32) {
            Order::Less
        } else {
            Order::Greater
        },
    decreases k,
{
    if k > 0 {
        assert(a[0] == a.take(k)[0] && b[0] == b.take(k)[0]);
        assert(a.drop_first().take(k - 1) =~= b.drop_first().take(k - 1)) by {
            assert forall|i: int|
                #![trigger a.drop_first().take(k - 1)[i]]
                0 <= i < k - 1 implies a.drop_first().take(k - 1)[i] == b.drop_first().take(
                k - 1,
            )[i] by {
                assert(a.drop_first().take(k - 1)[i] == a[i + 1]);
                assert(b.drop_first().take(k - 1)[i] == b[i + 1]);
                assert(a[i + 1] == a.take(k)[i + 1]);
                assert(b[i + 1] == b.take(k)[i + 1]);
            }
        }
        assert(a.drop_first()[k - 1] == a[k] && b.drop_first()[k - 1] == b[k]);
        lemma_lex_first_difference(a.drop_first(), b.drop_first(), k - 1);
    }
}

proof fn lemma_lex_prefix(a: Seq<char>, b: Seq<char>)
    requires
        a.len() < b.len(),
        a == b.take(a.len() as int),
    ensures
        lex_order(a, b) == Order::Less,
        lex_order(b, a) == Order::Greater,
    decreases a.len(),
{
    if a.len() > 0 {
        assert(a[0] == b[0]);
        assert(a.drop_first() =~= b.drop_first().take(a.drop_first().len() as int));
        lemma_lex_prefix(a.drop_first(), b.drop_first());
    }
}

proof fn lemma_lex_same(a: Seq<char>)
    ensures
        lex_order(a, a) == Order::Equal,
    decreases a.len(),
{
    if a.len() > 0 {
        lemma_lex_same(a.drop_first());
    }
}

/// How `comm` orders two lines when case matters: by code point, whatever
/// their lengths. At the first place where they differ, the line with the
/// smaller character comes first; a line that is the beginning of a longer
/// one comes before it; and only the same line compares equal. With `-i` the
/// lowercase mappings are compared the same way.
pub proof fn line_order_is_lexicographic(a: Seq<char>, b: Seq<char>)
    ensures
        forall|k: int|
            #![trigger a[k], b[k]]
            0 <= k < a.len() && k < b.len() && a.take(k) == b.take(k) && (a[k] as u32) < (b[k] as u32)
                ==> line_order(a, b, false) == Order::Less,
        forall|k: int|
            #![trigger a[k], b[k]]
            0 <= k < a.len() && k < b.len() && a.take(k) == b.take(k) && (a[k] as u32) > (b[k] as u32)
                ==> line_order(a, b, false) == Order::Greater,
        a.len() < b.len() && a == b.take(a.len() as int) ==> line_order(a, b, false) == Order::Less,
        b.len() < a.len() && b == a.take(b.len() as int) ==> line_order(a, b, false) == Order::Greater,
        line_order(a, b, false) == Order::Equal <==> a == b,
        line_order(a, b, true) == line_order(lowercase(a), lowercase(b), false),
{
    assert forall|k: int|
        #![trigger a[k], b[k]]
        0 <= k < a.len() && k < b.len() && a.take(k) == b.take(k) && (a[k] as u32) != (b[k] as u32)
            implies lex_order(a, b) == if (a[k] as u32) < (b[k] as u32) {
            Order::Less
        } else {
            Order::Greater
        } by {
        lemma_lex_first_difference(a, b, k);
    }
    if a.len() < b.len() && a == b.take(a.len() as int) {
        lemma_lex_prefix(a, b);
    }
    if b.len() < a.len() && b == a.take(b.len() as int) {
        lemma_lex_prefix(b, a);
    }
    lemma_lex_equal(a, b);
    lemma_lex_same(a);
}

} // verus!
