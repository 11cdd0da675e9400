//! `head`: prints the first lines or bytes of files.
use vstd::prelude::*;
use vstd::utf8::{decode_utf8, valid_utf8};
use crate::input::{opt_view, push_unavailable, unavailable_line, Report, Source};
use crate::text::{
    first_line, lemma_readable_empty, lemma_readable_step, lemma_readable_stop, read_fails,
    readable_lines, readable_lines_rebuild_text, LineReader, ReadError,
};

verus! {

/// The settings of one run: how many lines, or how many bytes where given.
pub struct Options {
    pub files: Vec<String>,
    pub lines: u64,
    pub bytes: Option<u64>,
}

/// What `String::from_utf8_lossy` makes of `bytes`.
pub uninterp spec fn utf8_lossy(bytes: Seq<u8>) -> Seq<char>;

/// `String::from_utf8_lossy`: the bytes as a string where sequences that are
/// not UTF-8 become U+FFFD. The contract names the result, and states what
/// the standard library documents of it in a line: bytes that are UTF-8 are
/// decoded as they are. How invalid sequences are cut into replacement
/// characters is left unsaid.
#[verifier::external_body]
fn from_utf8_lossy(bytes: &[u8]) -> (r: String)
    ensures
        r@ == utf8_lossy(bytes@),
        valid_utf8(bytes@) ==> r@ == decode_utf8(bytes@),
{
    String::from_utf8_lossy(bytes).into_owned()
}

/// The header `head` prints before a file when it prints several:
/// `==> name <==`, after an empty line unless it is the first file named.
pub open spec fn header(name: Seq<char>, index: nat) -> Seq<char> {
    (if index > 0 {
        seq!['\n']
    } else {
        seq![]
    }) + seq!['=', '=', '>', ' '] + name + seq![' ', '<', '=', '=', '\n']
}

/// The smaller of `a` and `b`.
pub open spec fn min(a: nat, b: nat) -> nat {
    if a < b {
        a
    } else {
        b
    }
}

/// What `head` prints of a file holding `b`, and whether reading it failed:
/// the first `n` bytes, decoded with replacement characters, when a byte
/// count is given; else its first `lines` lines, each with its newline,
/// failing where a line among them is not UTF-8.
pub open spec fn head_file(b: Seq<u8>, lines: u64, bytes: Option<u64>) -> (Seq<char>, bool) {
    match bytes {
        Some(n) => (utf8_lossy(b.take(min(n as nat, b.len()) as int)), false),
        None => {
            let read = readable_lines(b);
            if read.len() < lines {
                (read.flatten(), read_fails(b))
            } else {
                (read.take(lines as int).flatten(), false)
            }
        },
    }
}

/// Standard output, standard error and the error that ends the run, if any,
/// for the files `names` with contents `srcs`, where the first of them is the
/// `index`-th file named of `count`: an unavailable file is reported and
/// skipped; a file that cannot be read, once something is asked of it, or a
/// line that is not UTF-8 ends the run.
pub open spec fn head_run(
    names: Seq<String>,
    srcs: Seq<Source>,
    o: Options,
    index: nat,
    count: nat,
) -> (Seq<char>, Seq<char>, Option<Seq<char>>)
    decreases srcs.len(),
{
    if srcs.len() == 0 || names.len() == 0 {
        (seq![], seq![], None)
    } else {
        let rest = head_run(names.drop_first(), srcs.drop_first(), o, index + 1, count);
        let h = if count > 1 {
            header(names[0]@, index)
        } else {
            seq![]
        };
        match srcs[0] {
            Source::Unavailable(e) => (rest.0, unavailable_line(names[0]@, e@) + rest.1, rest.2),
            Source::Unreadable(e) => if o.bytes is Some || o.lines > 0 {
                (h, seq![], Some(e@))
            } else {
                (h + rest.0, rest.1, rest.2)
            },
            Source::Contents(b) => {
                let f = head_file(b@, o.lines, o.bytes);
                if f.1 {
                    (h + f.0, seq![], Some("stream did not contain valid UTF-8"@))
                } else {
                    (h + f.0 + rest.0, rest.1, rest.2)
                }
            },
        }
    }
}

/// Appends the first `lines` lines of `data`; `false` where one of them is
/// not UTF-8.
fn head_lines(out: &mut String, data: &Vec<u8>, lines: u64) -> (ok: bool)
    ensures
        final(out)@ == old(out)@ + head_file(data@, lines, None).0,
        ok == !head_file(data@, lines, None).1,
{
    let mut reader = LineReader::new(data.clone());
    let mut k: u64 = 0;
    let ghost all = readable_lines(data@);
    while k < lines
        invariant
            all == readable_lines(data@),
            k <= lines,
            k <= all.len(),
            all == all.take(k as int) + readable_lines(reader@),
            out@ == old(out)@ + all.take(k as int).flatten(),
            read_fails(data@) == read_fails(reader@),
        decreases lines - k,
    {
        let ghost before = reader@;
        proof {
            if before.len() == 0 {
                lemma_readable_empty(before);
            } else if valid_utf8(first_line(before)) {
                lemma_readable_step(before);
            } else {
                lemma_readable_stop(before);
            }
        }
        match reader.read_raw_line() {
            Ok(Some(line)) => {
                proof {
                    let done = all.take(k as int);
                    assert(all.take(k + 1) =~= done.push(line@));
                    assert(all =~= all.take(k + 1) + readable_lines(reader@));
                    done.lemma_flatten_push(line@);
                }
                out.append(line.as_str());
                k += 1;
            },
            Ok(None) => {
                assert(all.take(k as int) =~= all);
                return true;
            },
            Err(_) => {
                assert(all.take(k as int) =~= all);
                return false;
            },
        }
    }
    true
}


/// Appends the first `n` bytes of `data`, decoded with replacement characters.
fn head_bytes(out: &mut String, data: &Vec<u8>, n: u64)
    ensures
        final(out)@ == old(out)@ + head_file(data@, 0, Some(n)).0,
{
    let len = data.len();
    let end: usize = if (n as u128) < (len as u128) {
        n as usize
    } else {
        len
    };
    let part = &data.as_slice()[0..end];
    assert(part@ =~= data@.take(min(n as nat, data@.len()) as int));
    out.append(from_utf8_lossy(part).as_str());
}

/// Appends the header of the `index`-th file.
fn push_header(out: &mut String, name: &str, index: usize)
    ensures
        final(out)@ == old(out)@ + header(name@, index as nat),
{
    if index > 0 {
        out.push('\n');
    }
    out.push('=');
    out.push('=');
    out.push('>');
    out.push(' ');
    out.append(name);
    out.push(' ');
    out.push('<');
    out.push('=');
    out.push('=');
    out.push('\n');
    assert(final(out)@ =~= old(out)@ + header(name@, index as nat));
}

/// Runs `head` over `sources`, the contents of `options.files` in order.
pub fn run(options: &Options, sources: &Vec<Source>) -> (r: Report)
    requires
        sources.len() == options.files.len(),
    ensures
        ({
            let s = head_run(options.files@, sources@, *options, 0, options.files@.len());
            &&& r.out@ == s.0
            &&& r.err@ == s.1
            &&& opt_view(r.failure) == s.2
        }),
{
    let mut out = String::new();
    let mut err = String::new();
    let n = sources.len();
    let ghost whole = head_run(options.files@, sources@, *options, 0, n as nat);
    assert(options.files@.skip(0) =~= options.files@);
    assert(sources@.skip(0) =~= sources@);
    for i in 0..n
        invariant
            n == sources.len(),
            n == options.files.len(),
            whole == head_run(options.files@, sources@, *options, 0, n as nat),
            ({
                let rest = head_run(
                    options.files@.skip(i as int),
                    sources@.skip(i as int),
                    *options,
                    i as nat,
                    n as nat,
                );
                &&& whole.0 == out@ + rest.0
                &&& whole.1 == err@ + rest.1
                &&& whole.2 == rest.2
            }),
    {
        let ghost names = options.files@.skip(i as int);
        let ghost srcs = sources@.skip(i as int);
        assert(names.drop_first() =~= options.files@.skip(i + 1));
        assert(srcs.drop_first() =~= sources@.skip(i + 1));
        assert(srcs[0] == sources@[i as int]);
        assert(names[0] == options.files@[i as int]);
        let name = options.files[i].as_str();
        match &sources[i] {
            Source::Unavailable(e) => {
                push_unavailable(&mut err, name, e.as_str());
            },
            Source::Unreadable(e) => {
                if n > 1 {
                    push_header(&mut out, name, i);
                }
                if options.bytes.is_some() || options.lines > 0 {
                    return Report { out, err, failure: Some(e.clone()) };
                }
            },
            Source::Contents(data) => {
                if n > 1 {
                    push_header(&mut out, name, i);
                }
                match options.bytes {
                    Some(num_bytes) => {
                        head_bytes(&mut out, data, num_bytes);
                    },
                    None => {
                        let ok = head_lines(&mut out, data, options.lines);
                        if !ok {
                            let failure = ReadError::InvalidUtf8.message();
                            return Report { out, err, failure: Some(failure) };
                        }
                    },
                }
            },
        }
    }
    assert(sources@.skip(n as int).len() == 0);
    Report { out, err, failure: None }
}

/// Asked for at least as many lines as a UTF-8 file has, `head` prints the
/// whole file and does not fail.
pub proof fn short_file_printed_whole(b: Seq<u8>, lines: u64)
    requires
        valid_utf8(b),
        readable_lines(b).len() <= lines,
    ensures
        head_file(b, lines, None) == (decode_utf8(b), false),
{
    readable_lines_rebuild_text(b);
    assert(readable_lines(b).take(readable_lines(b).len() as int) =~= readable_lines(b));
}

} // verus!
