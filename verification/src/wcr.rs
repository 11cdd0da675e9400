//! `wc`: counts the lines, words, bytes and characters of files.
use vstd::prelude::*;
use vstd::utf8::{decode_utf8, valid_utf8};
use crate::input::{push_unavailable, unavailable_line, Report, Source};
use crate::text::{
    chars_of, decimal, first_line, is_stdin_name, is_ws, lemma_decoded_len,
    lemma_readable_empty, lemma_readable_step, lemma_readable_stop, pad_left, push_right_aligned,
    read_fails, readable_lines, LineReader, ReadError,
};

verus! {

/// The settings of one run: which counts to show.
pub struct Options {
    pub files: Vec<String>,
    pub lines: bool,
    pub words: bool,
    pub bytes: bool,
    pub chars: bool,
}

/// The counts of one file.
#[derive(Debug, Clone, Copy, PartialEq, Eq)]
pub struct FileInfo {
    pub num_lines: usize,
    pub num_words: usize,
    pub num_bytes: usize,
    pub num_chars: usize,
}

/// The number of words of `s` that start after a word when `in_word`: a word
/// is a longest run of characters that are not white space.
pub open spec fn words_from(s: Seq<char>, in_word: bool) -> nat
    decreases s.len(),
{
    if s.len() == 0 {
        0
    } else if is_ws(s[0]) {
        words_from(s.drop_first(), false)
    } else if in_word {
        words_from(s.drop_first(), true)
    } else {
        1 + words_from(s.drop_first(), true)
    }
}

/// The number of words in `s`, as `split_whitespace().count()` gives it.
pub open spec fn word_count(s: Seq<char>) -> nat {
    words_from(s, false)
}

/// The sum of `f` over `lines`.
pub open spec fn sum_of(lines: Seq<Seq<char>>, f: spec_fn(Seq<char>) -> nat) -> nat
    decreases lines.len(),
{
    if lines.len() == 0 {
        0
    } else {
        f(lines[0]) + sum_of(lines.drop_first(), f)
    }
}

/// The counts of a file holding `b` whose lines are all UTF-8: its lines, the
/// words and characters over all of them, and its bytes.
pub open spec fn file_info(b: Seq<u8>) -> FileInfo {
    let lines = readable_lines(b);
    FileInfo {
        num_lines: lines.len() as usize,
        num_words: sum_of(lines, |l: Seq<char>| word_count(l)) as usize,
        num_bytes: b.len() as usize,
        num_chars: sum_of(lines, |l: Seq<char>| l.len()) as usize,
    }
}

proof fn lemma_words_bound(s: Seq<char>, in_word: bool)
    ensures
        words_from(s, in_word) <= s.len(),
    decreases s.len(),
{
    if s.len() > 0 {
        lemma_words_bound(s.drop_first(), false);
        lemma_words_bound(s.drop_first(), true);
    }
}

/// The number of words in `s`.
pub fn count_words(s: &str) -> (r: usize)
    ensures
        r == word_count(s@),
{
    let v = chars_of(s);
    let mut in_word = false;
    let mut n: usize = 0;
    let mut i: usize = 0;
    proof {
        lemma_words_bound(v@, false);
    }
    assert(v@.skip(0) =~= v@);
    while i < v.len()
        invariant
            i <= v.len(),
            v@ == s@,
            word_count(s@) == n + words_from(v@.skip(i as int), in_word),
            n <= i,
        decreases v.len() - i,
    {
        let c = v[i];
        assert(v@.skip(i as int).drop_first() =~= v@.skip(i + 1));
        if crate::text::is_whitespace(c) {
            in_word = false;
        } else {
            if !in_word {
                n += 1;
            }
            in_word = true;
        }
        i += 1;
    }
    n
}

/// Counts the lines, words, bytes and characters of `data`, reading it line by
/// line: an error where a line is not UTF-8.
pub fn count(data: &[u8]) -> (r: Result<FileInfo, ReadError>)
    ensures
        r is Err <==> read_fails(data@),
        r is Err <==> !valid_utf8(data@),
        r matches Ok(info) ==> info == file_info(data@),
        r matches Ok(info) ==> info.num_lines <= info.num_bytes && info.num_words <= info.num_chars
            && info.num_chars <= info.num_bytes,
{
    proof {
        crate::text::read_fails_iff_not_utf8(data@);
    }
    let mut reader = LineReader::new(vstd::slice::slice_to_vec(data));
    let mut num_lines: usize = 0;
    let mut num_words: usize = 0;
    let mut num_bytes: usize = 0;
    let mut num_chars: usize = 0;
    let ghost all = readable_lines(data@);
    let total = data.len();
    loop
        invariant
            total == data@.len(),
            all == readable_lines(data@),
            num_bytes + reader@.len() == data@.len(),
            num_lines <= num_bytes,
            num_words <= num_chars,
            num_chars <= num_bytes,
            read_fails(data@) == read_fails(reader@),
            read_fails(data@) <==> !valid_utf8(data@),
            ({
                let done = all.take(all.len() - readable_lines(reader@).len());
                &&& readable_lines(reader@).len() <= all.len()
                &&& all == done + readable_lines(reader@)
                &&& num_lines == done.len()
                &&& num_words == sum_of(done, |l: Seq<char>| word_count(l))
                &&& num_chars == sum_of(done, |l: Seq<char>| l.len())
            }),
        decreases reader@.len(),
    {
        let ghost before = reader@;
        proof {
            if before.len() == 0 {
                lemma_readable_empty(before);
            } else if valid_utf8(first_line(before)) {
                lemma_readable_step(before);
                lemma_decoded_len(first_line(before));
                crate::text::lemma_line_len_bounds(before);
            } else {
                lemma_readable_stop(before);
            }
        }
        match reader.read_raw_line() {
            Ok(Some(line)) => {
                let line_bytes = line.as_str().len();
                assert(line_bytes == vstd::utf8::encode_utf8(line@).len());
                let words = count_words(line.as_str());
                let chars = line.as_str().unicode_len();
                proof {
                    assert(vstd::utf8::encode_utf8(line@) == first_line(before));
                    assert(first_line(before).len() + reader@.len() == before.len());
                    let done = all.take(all.len() - readable_lines(before).len());
                    let done2 = all.take(all.len() - readable_lines(reader@).len());
                    assert(done2 =~= done.push(line@));
                    lemma_sum_push(done, line@, |l: Seq<char>| word_count(l));
                    lemma_sum_push(done, line@, |l: Seq<char>| l.len());
                    lemma_words_bound(line@, false);
                }
                num_bytes += line_bytes;
                num_lines += 1;
                num_words += words;
                num_chars += chars;
            },
            Ok(None) => {
                proof {
                    assert(all.take(all.len() as int) =~= all);
                }
                return Ok(FileInfo { num_lines, num_words, num_bytes, num_chars });
            },
            Err(e) => {
                return Err(e);
            },
        }
    }
}

proof fn lemma_sum_push(lines: Seq<Seq<char>>, l: Seq<char>, f: spec_fn(Seq<char>) -> nat)
    ensures
        sum_of(lines.push(l), f) == sum_of(lines, f) + f(l),
    decreases lines.len(),
{
    if lines.len() == 0 {
        assert(lines.push(l).drop_first() =~= lines);
    } else {
        assert(lines.push(l).drop_first() =~= lines.drop_first().push(l));
        lemma_sum_push(lines.drop_first(), l, f);
    }
}


/// One count as `wc` shows it: right-aligned in eight columns when shown,
/// nothing otherwise.
pub open spec fn field(value: nat, show: bool) -> Seq<char> {
    if show {
        pad_left(decimal(value), 8)
    } else {
        seq![]
    }
}

/// Formats one count: `{value:>8}` when `show`, the empty string otherwise.
pub fn format_field(value: usize, show: bool) -> (r: String)
    ensures
        r@ == field(value as nat, show),
{
    let mut r = String::new();
    if show {
        push_right_aligned(&mut r, value as u64, 8);
    }
    assert(r@ =~= field(value as nat, show));
    r
}

/// The four counts as `wc` shows them, in the order lines, words, bytes,
/// characters.
pub open spec fn fields(lines: nat, words: nat, bytes: nat, chars: nat, o: Options) -> Seq<char> {
    field(lines, o.lines) + field(words, o.words) + field(bytes, o.bytes) + field(chars, o.chars)
}

/// The line `wc` prints for one file: its counts, then its name after a space
/// unless it is standard input.
pub open spec fn info_line(info: FileInfo, name: Seq<char>, o: Options) -> Seq<char> {
    fields(
        info.num_lines as nat,
        info.num_words as nat,
        info.num_bytes as nat,
        info.num_chars as nat,
        o,
    ) + (if name == seq!['-'] {
        seq![]
    } else {
        seq![' '] + name
    }) + seq!['\n']
}

/// Standard output, standard error, and the totals of lines, words, bytes
/// and characters, for the files `names` with contents `srcs`: an unavailable
/// file is reported, and a file that cannot be read, or has a line that is
/// not UTF-8, is skipped.
pub open spec fn wc_files(names: Seq<String>, srcs: Seq<Source>, o: Options) -> (
    Seq<char>,
    Seq<char>,
    (nat, nat, nat, nat),
)
    decreases srcs.len(),
{
    if srcs.len() == 0 || names.len() == 0 {
        (seq![], seq![], (0, 0, 0, 0))
    } else {
        let rest = wc_files(names.drop_first(), srcs.drop_first(), o);
        let t = rest.2;
        match srcs[0] {
            Source::Unavailable(e) => (rest.0, unavailable_line(names[0]@, e@) + rest.1, t),
            Source::Unreadable(_) => rest,
            Source::Contents(b) => if read_fails(b@) {
                rest
            } else {
                let info = file_info(b@);
                (
                    info_line(info, names[0]@, o) + rest.0,
                    rest.1,
                    (
                        info.num_lines as nat + t.0,
                        info.num_words as nat + t.1,
                        info.num_bytes as nat + t.2,
                        info.num_chars as nat + t.3,
                    ),
                )
            },
        }
    }
}

/// What `wc` prints: a line per file it could count, then a line of totals
/// when more than one file was named.
pub open spec fn wc_out(names: Seq<String>, srcs: Seq<Source>, o: Options) -> Seq<char> {
    let r = wc_files(names, srcs, o);
    let t = r.2;
    r.0 + if names.len() > 1 {
        fields(t.0, t.1, t.2, t.3, o) + seq![' ', 't', 'o', 't', 'a', 'l', '\n']
    } else {
        seq![]
    }
}

/// The number of bytes over all the inputs that could be read.
pub open spec fn total_size(srcs: Seq<Source>) -> nat
    decreases srcs.len(),
{
    if srcs.len() == 0 {
        0
    } else {
        (match srcs[0] {
            Source::Contents(b) => b@.len(),
            Source::Unavailable(_) => 0,
            Source::Unreadable(_) => 0,
        }) + total_size(srcs.drop_first())
    }
}

proof fn lemma_totals_bound(names: Seq<String>, srcs: Seq<Source>, o: Options)
    requires
        total_size(srcs) <= usize::MAX,
    ensures
        ({
            let t = wc_files(names, srcs, o).2;
            t.0 <= t.2 && t.1 <= t.3 && t.3 <= t.2 && t.2 <= total_size(srcs)
        }),
    decreases srcs.len(),
{
    if srcs.len() > 0 && names.len() > 0 {
        lemma_totals_bound(names.drop_first(), srcs.drop_first(), o);
        match srcs[0] {
            Source::Contents(b) => {
                if !read_fails(b@) {
                    lemma_info_bound(b@);
                }
            },
            Source::Unavailable(_) => {},
            Source::Unreadable(_) => {},
        }
    }
}

proof fn lemma_info_bound(b: Seq<u8>)
    requires
        !read_fails(b),
        b.len() <= usize::MAX,
    ensures
        file_info(b).num_lines <= file_info(b).num_bytes,
        file_info(b).num_words <= file_info(b).num_chars,
        file_info(b).num_chars <= file_info(b).num_bytes,
        file_info(b).num_bytes == b.len(),
{
    lemma_info_bound_rec(b);
}

proof fn lemma_info_bound_rec(b: Seq<u8>)
    requires
        !read_fails(b),
    ensures
        ({
            let lines = readable_lines(b);
            &&& lines.len() <= b.len()
            &&& sum_of(lines, |l: Seq<char>| word_count(l)) <= sum_of(lines, |l: Seq<char>| l.len())
            &&& sum_of(lines, |l: Seq<char>| l.len()) <= b.len()
        }),
    decreases b.len(),
{
    if b.len() > 0 {
        lemma_readable_step(b);
        lemma_decoded_len(first_line(b));
        crate::text::lemma_line_len_bounds(b);
        lemma_info_bound_rec(crate::text::after_first_line(b));
        let lines = readable_lines(b);
        assert(lines.drop_first() =~= readable_lines(crate::text::after_first_line(b)));
        lemma_words_bound(lines[0], false);
    }
}

/// Appends the counts as `wc` shows them.
fn push_fields(out: &mut String, lines: usize, words: usize, bytes: usize, chars: usize, o: &Options)
    ensures
        final(out)@ == old(out)@ + fields(lines as nat, words as nat, bytes as nat, chars as nat, *o),
{
    out.append(format_field(lines, o.lines).as_str());
    out.append(format_field(words, o.words).as_str());
    out.append(format_field(bytes, o.bytes).as_str());
    out.append(format_field(chars, o.chars).as_str());
    assert(final(out)@ =~= old(out)@ + fields(lines as nat, words as nat, bytes as nat, chars as nat, *o));
}

/// Appends the line of one file.
fn push_info_line(out: &mut String, info: FileInfo, name: &str, o: &Options)
    ensures
        final(out)@ == old(out)@ + info_line(info, name@, *o),
{
    push_fields(out, info.num_lines, info.num_words, info.num_bytes, info.num_chars, o);
    if !is_stdin_name(name) {
        out.push(' ');
        out.append(name);
    }
    out.push('\n');
    assert(final(out)@ =~= old(out)@ + info_line(info, name@, *o));
}

/// Appends the line of totals.
fn push_total_line(
    out: &mut String,
    lines: usize,
    words: usize,
    bytes: usize,
    chars: usize,
    o: &Options,
)
    ensures
        final(out)@ == old(out)@ + fields(lines as nat, words as nat, bytes as nat, chars as nat, *o)
            + seq![' ', 't', 'o', 't', 'a', 'l', '\n'],
{
    push_fields(out, lines, words, bytes, chars, o);
    out.push(' ');
    out.push('t');
    out.push('o');
    out.push('t');
    out.push('a');
    out.push('l');
    out.push('\n');
    assert(final(out)@ =~= old(out)@ + fields(lines as nat, words as nat, bytes as nat, chars as nat, *o)
        + seq![' ', 't', 'o', 't', 'a', 'l', '\n']);
}

/// Runs `wc` over `sources`, the contents of `options.files` in order.
pub fn run(options: &Options, sources: &Vec<Source>) -> (r: Report)
    requires
        sources.len() == options.files.len(),
        total_size(sources@) <= usize::MAX,
    ensures
        r.out@ == wc_out(options.files@, sources@, *options),
        r.err@ == wc_files(options.files@, sources@, *options).1,
        r.failure is None,
{
    let mut out = String::new();
    let mut err = String::new();
    let mut total_lines: usize = 0;
    let mut total_words: usize = 0;
    let mut total_bytes: usize = 0;
    let mut total_chars: usize = 0;
    let n = sources.len();
    let ghost whole = wc_files(options.files@, sources@, *options);
    assert(options.files@.skip(0) =~= options.files@);
    assert(sources@.skip(0) =~= sources@);
    proof {
        lemma_totals_bound(options.files@, sources@, *options);
    }
    for i in 0..n
        invariant
            n == sources.len(),
            n == options.files.len(),
            whole == wc_files(options.files@, sources@, *options),
            whole.2.2 <= usize::MAX,
            total_size(sources@.skip(i as int)) <= usize::MAX,
            ({
                let rest = wc_files(options.files@.skip(i as int), sources@.skip(i as int), *options);
                &&& whole.0 == out@ + rest.0
                &&& whole.1 == err@ + rest.1
                &&& whole.2.0 == total_lines + rest.2.0
                &&& whole.2.1 == total_words + rest.2.1
                &&& whole.2.2 == total_bytes + rest.2.2
                &&& whole.2.3 == total_chars + rest.2.3
            }),
            total_lines <= total_bytes,
            total_words <= total_chars,
            total_chars <= total_bytes,
    {
        let ghost names = options.files@.skip(i as int);
        let ghost srcs = sources@.skip(i as int);
        assert(names.drop_first() =~= options.files@.skip(i + 1));
        assert(srcs.drop_first() =~= sources@.skip(i + 1));
        assert(srcs[0] == sources@[i as int]);
        assert(names[0] == options.files@[i as int]);
        proof {
            assert(total_size(srcs) == total_size(srcs.drop_first()) + (match srcs[0] {
                Source::Contents(b) => b@.len(),
                Source::Unavailable(_) => 0,
                Source::Unreadable(_) => 0,
            }));
            lemma_totals_bound(names.drop_first(), srcs.drop_first(), *options);
        }
        let name = options.files[i].as_str();
        match &sources[i] {
            Source::Unavailable(e) => {
                push_unavailable(&mut err, name, e.as_str());
            },
            Source::Unreadable(_) => {},
            Source::Contents(data) => {
                match count(data.as_slice()) {
                    Ok(info) => {
                        proof {
                            assert(data@.len() <= total_size(srcs));
                            lemma_info_bound(data@);
                        }
                        push_info_line(&mut out, info, name, options);
                        total_lines += info.num_lines;
                        total_words += info.num_words;
                        total_bytes += info.num_bytes;
                        total_chars += info.num_chars;
                    },
                    Err(_) => {},
                }
            },
        }
    }
    assert(sources@.skip(n as int).len() == 0);
    assert(whole.0 == out@ && whole.1 == err@);
    assert(whole.2 == (total_lines as nat, total_words as nat, total_bytes as nat, total_chars as nat));
    if n > 1 {
        push_total_line(&mut out, total_lines, total_words, total_bytes, total_chars, options);
    }
    Report { out, err, failure: None }
}


/// Whether the word state after reading `a` from `in_word` is inside a word.
pub open spec fn in_word_after(a: Seq<char>, in_word: bool) -> bool {
    if a.len() == 0 {
        in_word
    } else {
        !is_ws(a.last())
    }
}

proof fn lemma_words_concat(a: Seq<char>, c: Seq<char>, in_word: bool)
    ensures
        words_from(a + c, in_word) == words_from(a, in_word) + words_from(c, in_word_after(a, in_word)),
    decreases a.len(),
{
    if a.len() > 0 {
        assert((a + c).drop_first() =~= a.drop_first() + c);
        assert((a + c)[0] == a[0]);
        let next = if is_ws(a[0]) {
            false
        } else {
            true
        };
        lemma_words_concat(a.drop_first(), c, next);
        if a.len() > 1 {
            assert(a.drop_first().last() == a.last());
        }
    } else {
        assert(a + c =~= c);
    }
}

proof fn lemma_sum_len_flatten(lines: Seq<Seq<char>>)
    ensures
        sum_of(lines, |l: Seq<char>| l.len()) == lines.flatten().len(),
    decreases lines.len(),
{
    if lines.len() > 0 {
        lemma_sum_len_flatten(lines.drop_first());
    }
}

/// Every line but the last ends with a newline.
pub open spec fn lines_end_in_newline(lines: Seq<Seq<char>>) -> bool {
    forall|i: int| 0 <= i < lines.len() - 1 ==> #[trigger] lines[i].len() > 0 && lines[i].last() == '\n'
}

proof fn lemma_sum_words_flatten(lines: Seq<Seq<char>>)
    requires
        lines_end_in_newline(lines),
    ensures
        sum_of(lines, |l: Seq<char>| word_count(l)) == word_count(lines.flatten()),
    decreases lines.len(),
{
    if lines.len() > 0 {
        let rest = lines.drop_first();
        assert(lines_end_in_newline(rest)) by {
            assert forall|i: int| 0 <= i < rest.len() - 1 implies #[trigger] rest[i].len() > 0
                && rest[i].last() == '\n' by {
                assert(rest[i] == lines[i + 1]);
            }
        }
        lemma_sum_words_flatten(rest);
        lemma_words_concat(lines[0], rest.flatten(), false);
        if rest.len() > 0 {
            assert(lines[0].len() > 0 && lines[0].last() == '\n');
            assert(is_ws('\n'));
        } else {
            assert(rest.flatten() =~= Seq::<char>::empty());
        }
    }
}

/// A UTF-8 line of bytes that ends with a newline byte decodes to text that
/// ends with a newline.
proof fn lemma_decoded_newline(b: Seq<u8>)
    requires
        valid_utf8(b),
        b.len() > 0,
        b.last() == 10,
    ensures
        decode_utf8(b).len() > 0,
        decode_utf8(b).last() == '\n',
{
    let n = b.len() as int;
    vstd::utf8::is_char_boundary_start_end_of_seq(b);
    vstd::utf8::is_char_boundary_iff_not_is_continuation_byte(b, n - 1);
    vstd::utf8::valid_utf8_split(b, n - 1);
    vstd::utf8::decode_utf8_split(b, n - 1);
    let last = b.subrange(n - 1, n);
    assert(last =~= seq![10u8]);
    assert(vstd::utf8::pop_first_scalar(last) =~= Seq::<u8>::empty());
    assert(10u8 & 0x7Fu8 == 10u8) by (bit_vector);
    assert(valid_utf8(last));
    assert(last[0] == 10u8);
    assert(vstd::utf8::decode_first_scalar(last) == 10u32);
    assert(vstd::utf8::length_of_first_scalar(last) == 1);
    let empty = vstd::utf8::pop_first_scalar(last);
    assert(empty.len() == 0);
    assert(decode_utf8(empty) =~= Seq::<char>::empty());
    assert(decode_utf8(last) =~= seq![(10u32) as char]);
    assert((10u32) as char == '\n');
}

proof fn lemma_readable_lines_end_in_newline(b: Seq<u8>)
    requires
        valid_utf8(b),
    ensures
        lines_end_in_newline(readable_lines(b)),
    decreases b.len(),
{
    if b.len() > 0 {
        crate::text::lemma_first_line_utf8(b);
        lemma_readable_step(b);
        crate::text::lemma_line_len_bounds(b);
        crate::text::lemma_line_len_newline(b);
        let rest_b = crate::text::after_first_line(b);
        lemma_readable_lines_end_in_newline(rest_b);
        let lines = readable_lines(b);
        let rest = readable_lines(rest_b);
        assert(lines.drop_first() =~= rest);
        if rest.len() > 0 {
            assert(rest_b.len() > 0);
            assert(first_line(b).last() == 10);
            lemma_decoded_newline(first_line(b));
        }
        assert forall|i: int| 0 <= i < lines.len() - 1 implies #[trigger] lines[i].len() > 0
            && lines[i].last() == '\n' by {
            if i > 0 {
                assert(lines[i] == rest[i - 1]);
            }
        }
    }
}

/// The counts of a UTF-8 input are those of its whole text: the characters
/// of the text, the words of the text, the bytes of the input, and one line
/// for each line that reading hands out.
pub proof fn counts_of_utf8_text(b: Seq<u8>)
    requires
        valid_utf8(b),
        b.len() <= usize::MAX,
    ensures
        file_info(b).num_chars == decode_utf8(b).len(),
        file_info(b).num_words == word_count(decode_utf8(b)),
        file_info(b).num_bytes == b.len(),
        file_info(b).num_lines == crate::text::raw_lines(b).len(),
{
    crate::text::readable_lines_rebuild_text(b);
    lemma_info_bound(b);
    lemma_info_bound_rec(b);
    lemma_sum_len_flatten(readable_lines(b));
    lemma_readable_lines_end_in_newline(b);
    lemma_sum_words_flatten(readable_lines(b));
    lemma_lines_count(b);
}

proof fn lemma_lines_count(b: Seq<u8>)
    requires
        valid_utf8(b),
    ensures
        readable_lines(b).len() == crate::text::raw_lines(b).len(),
    decreases b.len(),
{
    if b.len() > 0 {
        crate::text::lemma_first_line_utf8(b);
        lemma_readable_step(b);
        crate::text::lemma_line_len_bounds(b);
        lemma_lines_count(crate::text::after_first_line(b));
    }
}

proof fn lemma_sum_concat(x: Seq<Seq<char>>, y: Seq<Seq<char>>, f: spec_fn(Seq<char>) -> nat)
    ensures
        sum_of(x + y, f) == sum_of(x, f) + sum_of(y, f),
    decreases x.len(),
{
    if x.len() == 0 {
        assert(x + y =~= y);
    } else {
        assert((x + y).drop_first() =~= x.drop_first() + y);
        lemma_sum_concat(x.drop_first(), y, f);
    }
}

/// Counts add up over a split at a line end: where `a` is UTF-8 and empty or
/// ending in a newline, and `b` is UTF-8, the counts of `a` followed by `b`
/// are those of `a` plus those of `b`, field by field.
pub proof fn counts_add_over_line_split(a: Seq<u8>, b: Seq<u8>)
    requires
        valid_utf8(a),
        valid_utf8(b),
        a.len() == 0 || a.last() == 10,
        a.len() + b.len() <= usize::MAX,
    ensures
        !read_fails(a + b),
        file_info(a + b).num_lines == file_info(a).num_lines + file_info(b).num_lines,
        file_info(a + b).num_words == file_info(a).num_words + file_info(b).num_words,
        file_info(a + b).num_bytes == file_info(a).num_bytes + file_info(b).num_bytes,
        file_info(a + b).num_chars == file_info(a).num_chars + file_info(b).num_chars,
{
    crate::text::readable_lines_rebuild_text(a);
    crate::text::readable_lines_rebuild_text(b);
    crate::text::lemma_readable_concat(a, b);
    let la = readable_lines(a);
    let lb = readable_lines(b);
    lemma_sum_concat(la, lb, |l: Seq<char>| word_count(l));
    lemma_sum_concat(la, lb, |l: Seq<char>| l.len());
    lemma_info_bound_rec(a);
    lemma_info_bound_rec(b);
    lemma_info_bound_rec(a + b);
}

/// Whether a word starts at position `i` of `s`: a character that is not
/// white space, first in `s` or after white space.
pub open spec fn word_starts_at(s: Seq<char>, i: int) -> bool {
    !is_ws(s[i]) && (i == 0 || is_ws(s[i - 1]))
}

/// The number of positions before `n` where a word starts.
pub open spec fn word_starts_before(s: Seq<char>, n: int) -> nat
    decreases n,
{
    if n <= 0 {
        0
    } else {
        word_starts_before(s, n - 1) + if word_starts_at(s, n - 1) {
            1nat
        } else {
            0nat
        }
    }
}

proof fn lemma_word_starts(s: Seq<char>, k: int)
    requires
        0 <= k <= s.len(),
    ensures
        word_count(s) == word_starts_before(s, k) + words_from(s.skip(k), k > 0 && !is_ws(s[k - 1])),
    decreases k,
{
    if k == 0 {
        assert(s.skip(0) =~= s);
    } else {
        lemma_word_starts(s, k - 1);
        let t = s.skip(k - 1);
        assert(t[0] == s[k - 1]);
        assert(t.drop_first() =~= s.skip(k));
    }
}

/// `wc` counts as words the maximal runs of characters that are not white
/// space, whatever those characters are: the word count is the number of
/// positions where such a run starts.
pub proof fn words_are_runs_of_non_space(s: Seq<char>)
    ensures
        word_count(s) == word_starts_before(s, s.len() as int),
{
    lemma_word_starts(s, s.len() as int);
    assert(s.skip(s.len() as int).len() == 0);
}

} // verus!
