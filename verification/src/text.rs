//! Characters, lines and numbers as the tools see them.
use vstd::prelude::*;
use vstd::utf8::{decode_utf8, encode_utf8, valid_utf8};

verus! {

/// The Unicode `White_Space` property, which decides what `trim_end`
/// removes and where words are split.
pub open spec fn is_ws(c: char) -> bool {
    let v = c as u32;
    ||| 0x09 <= v <= 0x0d
    ||| v == 0x20
    ||| v == 0x85
    ||| v == 0xa0
    ||| v == 0x1680
    ||| 0x2000 <= v <= 0x200a
    ||| v == 0x2028
    ||| v == 0x2029
    ||| v == 0x202f
    ||| v == 0x205f
    ||| v == 0x3000
}

/// Whether `c` is white space in the sense of Unicode.
pub fn is_whitespace(c: char) -> (r: bool)
    ensures
        r == is_ws(c),
{
    let v = c as u32;
    (0x09 <= v && v <= 0x0d) || v == 0x20 || v == 0x85 || v == 0xa0 || v == 0x1680 || (0x2000
        <= v && v <= 0x200a) || v == 0x2028 || v == 0x2029 || v == 0x202f || v == 0x205f || v
        == 0x3000
}


/// `String::push` appends one character.
pub assume_specification[ std::string::String::push ](s: &mut String, ch: char)
    ensures
        final(s)@ == old(s)@.push(ch),
;

/// The characters of `s`, in order.
pub fn chars_of(s: &str) -> (v: Vec<char>)
    ensures
        v@ == s@,
{
    let mut v: Vec<char> = Vec::new();
    for c in it: s.chars()
        invariant
            v@ == it.seq().take(it.index() as int),
            it.seq() == s@,
    {
        v.push(c);
    }
    v
}


/// A string holding the characters of `v`, in order.
pub fn string_of(v: &[char]) -> (s: String)
    ensures
        s@ == v@,
{
    let mut s = String::new();
    let mut i: usize = 0;
    while i < v.len()
        invariant
            i <= v.len(),
            s@ == v@.take(i as int),
        decreases v.len() - i,
    {
        s.push(v[i]);
        i += 1;
        assert(s@ =~= v@.take(i as int));
    }
    assert(v@.take(v@.len() as int) =~= v@);
    s
}

/// `s` without the white space at its end.
pub open spec fn trim_end(s: Seq<char>) -> Seq<char>
    decreases s.len(),
{
    if s.len() > 0 && is_ws(s.last()) {
        trim_end(s.drop_last())
    } else {
        s
    }
}

/// Removes the white space at the end of `s`, as `str::trim_end` does.
pub fn trim_end_str(s: &str) -> (r: String)
    ensures
        r@ == trim_end(s@),
{
    let v = chars_of(s);
    let mut n = v.len();
    assert(v@.take(n as int) =~= v@);
    while n > 0 && is_whitespace(v[n - 1])
        invariant
            n <= v.len(),
            trim_end(v@) == trim_end(v@.take(n as int)),
        decreases n,
    {
        assert(v@.take(n as int).drop_last() =~= v@.take(n - 1));
        n -= 1;
    }
    let kept = &v[0..n];
    assert(kept@ =~= v@.take(n as int));
    string_of(kept)
}

/// The character of the decimal digit `d`.
pub open spec fn digit_char(d: nat) -> char {
    (48 + d) as char
}

/// The decimal notation of `n`, without leading zeros.
pub open spec fn decimal(n: nat) -> Seq<char>
    decreases n,
{
    if n < 10 {
        seq![digit_char(n)]
    } else {
        decimal(n / 10).push(digit_char(n % 10))
    }
}

/// `n` space characters.
pub open spec fn spaces(n: nat) -> Seq<char> {
    Seq::new(n, |i: int| ' ')
}

/// `s` right-aligned in a field of `width` characters, as `{:>width}` does:
/// spaces in front where `s` is shorter, `s` itself where it is not.
pub open spec fn pad_left(s: Seq<char>, width: nat) -> Seq<char> {
    if s.len() < width {
        spaces((width - s.len()) as nat) + s
    } else {
        s
    }
}

/// Appends the decimal notation of `n` to `out`.
pub fn push_decimal(out: &mut String, n: u64)
    ensures
        final(out)@ == old(out)@ + decimal(n as nat),
    decreases n,
{
    if n >= 10 {
        push_decimal(out, n / 10);
    }
    let d: u8 = (n % 10) as u8;
    let c: char = (d + 48) as char;
    out.push(c);
    assert(final(out)@ =~= old(out)@ + decimal(n as nat));
}

/// Appends `n` space characters to `out`.
pub fn push_spaces(out: &mut String, n: usize)
    ensures
        final(out)@ == old(out)@ + spaces(n as nat),
{
    let mut i: usize = 0;
    while i < n
        invariant
            i <= n,
            out@ == old(out)@ + spaces(i as nat),
        decreases n - i,
    {
        out.push(' ');
        i += 1;
        assert(out@ =~= old(out)@ + spaces(i as nat));
    }
}

/// Appends `n` in decimal, right-aligned in a field of `width` characters,
/// as `{n:>width}` does.
pub fn push_right_aligned(out: &mut String, n: u64, width: usize)
    ensures
        final(out)@ == old(out)@ + pad_left(decimal(n as nat), width as nat),
{
    let mut digits = String::new();
    push_decimal(&mut digits, n);
    let len = digits.as_str().unicode_len();
    if len < width {
        push_spaces(out, width - len);
    }
    out.append(digits.as_str());
    assert(final(out)@ =~= old(out)@ + pad_left(decimal(n as nat), width as nat));
}


/// The number of bytes of the first line of `b`: up to and including the
/// first newline byte, or all of `b` where it has none.
pub open spec fn line_len(b: Seq<u8>) -> nat
    decreases b.len(),
{
    if b.len() == 0 {
        0
    } else if b[0] == 10 {
        1
    } else {
        1 + line_len(b.drop_first())
    }
}

/// The first line of `b`, with its newline where it has one.
pub open spec fn first_line(b: Seq<u8>) -> Seq<u8> {
    b.take(line_len(b) as int)
}

/// `b` after its first line.
pub open spec fn after_first_line(b: Seq<u8>) -> Seq<u8> {
    b.skip(line_len(b) as int)
}

/// A non-empty input has a first line of at least one byte, and no line is
/// longer than the input.
pub proof fn lemma_line_len_bounds(b: Seq<u8>)
    ensures
        line_len(b) <= b.len(),
        b.len() > 0 ==> line_len(b) >= 1,
    decreases b.len(),
{
    if b.len() > 0 && b[0] != 10 {
        lemma_line_len_bounds(b.drop_first());
    }
}

/// The lines of `b`, each with its newline, as `BufRead::read_line` hands
/// them out one by one.
pub open spec fn raw_lines(b: Seq<u8>) -> Seq<Seq<u8>>
    decreases b.len(),
{
    if b.len() == 0 {
        seq![]
    } else {
        proof {
            lemma_line_len_bounds(b);
        }
        seq![first_line(b)] + raw_lines(after_first_line(b))
    }
}

/// The decoded lines that a reader hands out before it stops: every line
/// where all are UTF-8, else those before the first one that is not.
pub open spec fn readable_lines(b: Seq<u8>) -> Seq<Seq<char>>
    decreases b.len(),
{
    if b.len() == 0 {
        seq![]
    } else {
        proof {
            lemma_line_len_bounds(b);
        }
        if valid_utf8(first_line(b)) {
            seq![decode_utf8(first_line(b))] + readable_lines(after_first_line(b))
        } else {
            seq![]
        }
    }
}

/// Whether reading `b` line by line meets a line that is not UTF-8.
pub open spec fn read_fails(b: Seq<u8>) -> bool
    decreases b.len(),
{
    if b.len() == 0 {
        false
    } else {
        proof {
            lemma_line_len_bounds(b);
        }
        if valid_utf8(first_line(b)) {
            read_fails(after_first_line(b))
        } else {
            true
        }
    }
}

/// `readable_lines` with the white space at the end of each line removed.
pub open spec fn trimmed_lines(b: Seq<u8>) -> Seq<Seq<char>> {
    readable_lines(b).map_values(|l: Seq<char>| trim_end(l))
}

/// The failure of reading a line.
#[derive(Debug, Clone, Copy, PartialEq, Eq)]
pub enum ReadError {
    /// The line is not valid UTF-8.
    InvalidUtf8,
}

impl ReadError {
    /// The text that `std::io::Error` shows for this failure.
    pub fn message(&self) -> (r: String)
        ensures
            r@ == "stream did not contain valid UTF-8"@,
    {
        String::from_str("stream did not contain valid UTF-8")
    }
}

/// `std::str::from_utf8`: the slice as a string where it is UTF-8, as the
/// standard library documents; vstd's `valid_utf8` and `decode_utf8` state
/// what UTF-8 is.
#[verifier::external_body]
fn str_from_utf8(bytes: &[u8]) -> (r: Option<&str>)
    ensures
        r is Some <==> valid_utf8(bytes@),
        r matches Some(s) ==> s@ == decode_utf8(bytes@),
{
    std::str::from_utf8(bytes).ok()
}

/// Decodes `bytes` as UTF-8.
pub fn decode(bytes: &[u8]) -> (r: Option<String>)
    ensures
        r is Some <==> valid_utf8(bytes@),
        r matches Some(s) ==> s@ == decode_utf8(bytes@),
{
    match str_from_utf8(bytes) {
        Some(s) => Some(s.to_owned()),
        None => None,
    }
}

/// Hands out the lines of an input one by one, as a buffered reader does.
pub struct LineReader {
    data: Vec<u8>,
    pos: usize,
}

impl View for LineReader {
    type V = Seq<u8>;

    /// What is left to read.
    closed spec fn view(&self) -> Seq<u8> {
        self.data@.skip(self.pos as int)
    }
}

impl LineReader {
    #[verifier::type_invariant]
    spec fn inv(self) -> bool {
        self.pos <= self.data@.len()
    }

    /// A reader over `data`.
    pub fn new(data: Vec<u8>) -> (r: Self)
        ensures
            r@ == data@,
    {
        let r = LineReader { data, pos: 0 };
        assert(r.data@.skip(0) =~= r.data@);
        r
    }

    /// Reads the next line with its newline, as `BufRead::read_line` does:
    /// `None` at the end, an error where the line is not UTF-8.
    pub fn read_raw_line(&mut self) -> (r: Result<Option<String>, ReadError>)
        ensures
            old(self)@.len() == 0 ==> r == Ok::<Option<String>, ReadError>(None) && final(self)@
                == old(self)@,
            old(self)@.len() > 0 ==> {
                &&& final(self)@ == after_first_line(old(self)@)
                &&& valid_utf8(first_line(old(self)@)) ==> (r matches Ok(Some(s)) && s@
                    == decode_utf8(first_line(old(self)@)))
                &&& !valid_utf8(first_line(old(self)@)) ==> r == Err::<Option<String>, ReadError>(
                    ReadError::InvalidUtf8,
                )
            },
    {
        proof {
            use_type_invariant(&*self);
        }
        let start = self.pos;
        let len = self.data.len();
        if start == len {
            return Ok(None);
        }
        let ghost rest = self.data@.skip(start as int);
        let mut end = start;
        let mut found = false;
        while end < len && !found
            invariant
                start <= end <= len,
                len == self.data@.len(),
                rest == self.data@.skip(start as int),
                found ==> end > start && self.data@[end - 1] == 10 && line_len(rest) == end - start,
                !found ==> line_len(rest) == (end - start) + line_len(self.data@.skip(end as int)),
            decreases len - end,
        {
            let b = self.data[end];
            assert(self.data@.skip(end as int).drop_first() =~= self.data@.skip(end + 1));
            end += 1;
            if b == 10 {
                found = true;
            }
        }
        proof {
            if !found {
                assert(self.data@.skip(end as int).len() == 0);
            }
        }
        let line = &self.data[start..end];
        assert(line@ =~= first_line(rest));
        self.pos = end;
        assert(self.data@.skip(end as int) =~= after_first_line(rest));
        match decode(line) {
            Some(s) => Ok(Some(s)),
            None => Err(ReadError::InvalidUtf8),
        }
    }

    /// Reads the next line without the white space at its end: `None` at the
    /// end, an error where the line is not UTF-8.
    pub fn read_line(&mut self) -> (r: Result<Option<String>, ReadError>)
        ensures
            old(self)@.len() == 0 ==> r == Ok::<Option<String>, ReadError>(None) && final(self)@
                == old(self)@,
            old(self)@.len() > 0 ==> {
                &&& final(self)@ == after_first_line(old(self)@)
                &&& valid_utf8(first_line(old(self)@)) ==> (r matches Ok(Some(s)) && s@
                    == trim_end(decode_utf8(first_line(old(self)@))))
                &&& !valid_utf8(first_line(old(self)@)) ==> r == Err::<Option<String>, ReadError>(
                    ReadError::InvalidUtf8,
                )
            },
    {
        match self.read_raw_line() {
            Ok(Some(line)) => Ok(Some(trim_end_str(line.as_str()))),
            Ok(None) => Ok(None),
            Err(e) => Err(e),
        }
    }
}


/// Reading one line off a non-empty input whose first line is UTF-8 yields
/// that line, and leaves the rest.
pub proof fn lemma_readable_step(b: Seq<u8>)
    requires
        b.len() > 0,
        valid_utf8(first_line(b)),
    ensures
        readable_lines(b) == seq![decode_utf8(first_line(b))] + readable_lines(after_first_line(b)),
        trimmed_lines(b) == seq![trim_end(decode_utf8(first_line(b)))] + trimmed_lines(
            after_first_line(b),
        ),
        read_fails(b) == read_fails(after_first_line(b)),
        after_first_line(b).len() < b.len(),
{
    lemma_line_len_bounds(b);
    let r = readable_lines(after_first_line(b));
    assert(trimmed_lines(b) =~= seq![trim_end(decode_utf8(first_line(b)))] + trimmed_lines(
        after_first_line(b),
    )) by {
        assert(readable_lines(b) == seq![decode_utf8(first_line(b))] + r);
        assert(readable_lines(b).map_values(|l: Seq<char>| trim_end(l)) =~= seq![
            trim_end(decode_utf8(first_line(b))),
        ] + r.map_values(|l: Seq<char>| trim_end(l)));
    }
}

/// An input whose first line is not UTF-8 yields no line and fails.
pub proof fn lemma_readable_stop(b: Seq<u8>)
    requires
        b.len() > 0,
        !valid_utf8(first_line(b)),
    ensures
        readable_lines(b) == Seq::<Seq<char>>::empty(),
        trimmed_lines(b) == Seq::<Seq<char>>::empty(),
        read_fails(b),
{
    assert(trimmed_lines(b) =~= Seq::<Seq<char>>::empty());
}

/// An empty input yields no line and does not fail.
pub proof fn lemma_readable_empty(b: Seq<u8>)
    requires
        b.len() == 0,
    ensures
        readable_lines(b) == Seq::<Seq<char>>::empty(),
        trimmed_lines(b) == Seq::<Seq<char>>::empty(),
        !read_fails(b),
{
    assert(trimmed_lines(b) =~= Seq::<Seq<char>>::empty());
}


/// Whether `name` is `-`, the name that stands for standard input.
pub fn is_stdin_name(name: &str) -> (r: bool)
    ensures
        r == (name@ == seq!['-']),
{
    if name.unicode_len() == 1 {
        let c = name.get_char(0);
        assert(c == '-' ==> name@ =~= seq!['-']);
        c == '-'
    } else {
        false
    }
}

/// Every character takes at least one byte in UTF-8.
pub proof fn lemma_encode_len(s: Seq<char>)
    ensures
        encode_utf8(s).len() >= s.len(),
    decreases s.len(),
{
    if s.len() > 0 {
        lemma_encode_len(s.drop_first());
    }
}

/// A line that is UTF-8 has no more characters than bytes.
pub proof fn lemma_decoded_len(b: Seq<u8>)
    requires
        valid_utf8(b),
    ensures
        decode_utf8(b).len() <= b.len(),
        encode_utf8(decode_utf8(b)) == b,
{
    vstd::utf8::decode_utf8_encode_utf8(b);
    lemma_encode_len(decode_utf8(b));
}


/// `parts` joined with `sep` between each two, as `join` does on slices.
pub open spec fn join(parts: Seq<Seq<char>>, sep: Seq<char>) -> Seq<char>
    decreases parts.len(),
{
    if parts.len() == 0 {
        seq![]
    } else if parts.len() == 1 {
        parts[0]
    } else {
        join(parts.drop_last(), sep) + sep + parts.last()
    }
}

/// The characters of each string of `v`.
pub open spec fn views(v: Seq<String>) -> Seq<Seq<char>> {
    v.map_values(|s: String| s@)
}

/// Joins `parts` with `sep` between each two.
pub fn join_strings(parts: &Vec<String>, sep: &str) -> (r: String)
    ensures
        r@ == join(views(parts@), sep@),
{
    let mut r = String::new();
    let n = parts.len();
    for i in 0..n
        invariant
            n == parts.len(),
            r@ == join(views(parts@).take(i as int), sep@),
    {
        let ghost done = views(parts@).take(i as int);
        if i > 0 {
            r.append(sep);
        }
        r.append(parts[i].as_str());
        assert(views(parts@).take(i + 1).drop_last() =~= done);
    }
    assert(views(parts@).take(n as int) =~= views(parts@));
    r
}


/// Reads the next line of `reader` without its trailing white space, stated
/// over the lines that are left: the next of them while there is one, then
/// an error where a line that is not UTF-8 stopped them, else the end.
pub fn read_trimmed(reader: &mut LineReader) -> (r: Result<Option<String>, ReadError>)
    ensures
        trimmed_lines(old(reader)@).len() > 0 ==> {
            &&& r matches Ok(Some(s)) && s@ == trimmed_lines(old(reader)@)[0]
            &&& trimmed_lines(final(reader)@) == trimmed_lines(old(reader)@).drop_first()
            &&& read_fails(final(reader)@) == read_fails(old(reader)@)
            &&& final(reader)@.len() < old(reader)@.len()
        },
        trimmed_lines(old(reader)@).len() == 0 ==> {
            &&& read_fails(old(reader)@) ==> r is Err
            &&& !read_fails(old(reader)@) ==> r == Ok::<Option<String>, ReadError>(None)
                && final(reader)@ == old(reader)@
        },
{
    let ghost before = reader@;
    proof {
        if before.len() == 0 {
            lemma_readable_empty(before);
        } else if valid_utf8(first_line(before)) {
            lemma_readable_step(before);
            let t = trimmed_lines(before);
            assert(t.drop_first() =~= trimmed_lines(after_first_line(before)));
        } else {
            lemma_readable_stop(before);
        }
    }
    reader.read_line()
}


/// The lines of an input, one after the other, give back the input.
pub proof fn raw_lines_rebuild_input(b: Seq<u8>)
    ensures
        raw_lines(b).flatten() == b,
    decreases b.len(),
{
    if b.len() > 0 {
        lemma_line_len_bounds(b);
        raw_lines_rebuild_input(after_first_line(b));
        let r = raw_lines(b);
        assert(r.drop_first() =~= raw_lines(after_first_line(b)));
        assert(r.first() == first_line(b));
        assert(b =~= first_line(b) + after_first_line(b));
    }
}

/// The first line of an input ends at its first newline, or at its end.
pub proof fn lemma_line_len_newline(b: Seq<u8>)
    requires
        b.len() > 0,
    ensures
        line_len(b) < b.len() ==> b[line_len(b) - 1] == 10,
        forall|i: int| 0 <= i < line_len(b) - 1 ==> b[i] != 10,
    decreases b.len(),
{
    lemma_line_len_bounds(b);
    if b[0] != 10 {
        if b.len() > 1 {
            lemma_line_len_newline(b.drop_first());
            assert forall|i: int| 0 <= i < line_len(b) - 1 implies b[i] != 10 by {
                if i > 0 {
                    assert(b[i] == b.drop_first()[i - 1]);
                }
            }
        }
    }
}

/// Splitting a UTF-8 input after its first line leaves two UTF-8 parts,
/// which decode to the parts of its text.
pub proof fn lemma_first_line_utf8(b: Seq<u8>)
    requires
        valid_utf8(b),
        b.len() > 0,
    ensures
        valid_utf8(first_line(b)),
        valid_utf8(after_first_line(b)),
        decode_utf8(b) == decode_utf8(first_line(b)) + decode_utf8(after_first_line(b)),
{
    lemma_line_len_bounds(b);
    lemma_line_len_newline(b);
    let k = line_len(b) as int;
    vstd::utf8::is_char_boundary_start_end_of_seq(b);
    if k < b.len() {
        // the byte after a newline starts a character: the newline is a
        // character of its own, so the index after it is a boundary
        vstd::utf8::is_char_boundary_iff_not_is_continuation_byte(b, k - 1);
        lemma_boundary_after_ascii(b, k - 1);
    }
    vstd::utf8::valid_utf8_split(b, k);
    vstd::utf8::decode_utf8_split(b, k);
    assert(b.subrange(0, k) =~= first_line(b));
    assert(b.subrange(k, b.len() as int) =~= after_first_line(b));
}

/// In UTF-8, the index after a one-byte character at a boundary is a
/// boundary too.
proof fn lemma_boundary_after_ascii(b: Seq<u8>, i: int)
    requires
        valid_utf8(b),
        0 <= i < b.len(),
        vstd::utf8::is_char_boundary(b, i),
        b[i] < 0x80,
    ensures
        vstd::utf8::is_char_boundary(b, i + 1),
    decreases b.len(),
{
    reveal_with_fuel(vstd::utf8::is_char_boundary, 2);
    if i > 0 {
        let tail = vstd::utf8::pop_first_scalar(b);
        let l = vstd::utf8::length_of_first_scalar(b);
        vstd::utf8::is_char_boundary_start_end_of_seq(b);
        assert(i >= l) by {
            lemma_boundary_ge_first(b, i);
        }
        assert(tail[i - l] == b[i]);
        lemma_boundary_after_ascii(tail, i - l);
    }
}

proof fn lemma_boundary_ge_first(b: Seq<u8>, i: int)
    requires
        valid_utf8(b),
        0 < i <= b.len(),
        vstd::utf8::is_char_boundary(b, i),
    ensures
        i >= vstd::utf8::length_of_first_scalar(b),
{
    reveal_with_fuel(vstd::utf8::is_char_boundary, 2);
}

/// Reading a UTF-8 input line by line never fails, and the lines, one after
/// the other, give back its text.
pub proof fn readable_lines_rebuild_text(b: Seq<u8>)
    requires
        valid_utf8(b),
    ensures
        !read_fails(b),
        readable_lines(b).flatten() == decode_utf8(b),
    decreases b.len(),
{
    if b.len() > 0 {
        lemma_first_line_utf8(b);
        lemma_readable_step(b);
        readable_lines_rebuild_text(after_first_line(b));
        let r = readable_lines(b);
        assert(r.drop_first() =~= readable_lines(after_first_line(b)));
    }
}

/// An input whose first part ends with a newline has the same first line
/// as that part.
pub proof fn lemma_line_len_concat(a: Seq<u8>, b: Seq<u8>)
    requires
        a.len() > 0,
        a.last() == 10,
    ensures
        line_len(a + b) == line_len(a),
        first_line(a + b) == first_line(a),
        after_first_line(a + b) == after_first_line(a) + b,
    decreases a.len(),
{
    lemma_line_len_bounds(a);
    if a[0] != 10 {
        assert((a + b).drop_first() =~= a.drop_first() + b);
        assert(a.drop_first().last() == a.last());
        lemma_line_len_concat(a.drop_first(), b);
    }
    assert(first_line(a + b) =~= first_line(a));
    assert(after_first_line(a + b) =~= after_first_line(a) + b);
}

/// Reading an input made of a UTF-8 part that ends with a newline (or is
/// empty) and a rest yields the lines of the part, then those of the rest.
pub proof fn lemma_readable_concat(a: Seq<u8>, b: Seq<u8>)
    requires
        valid_utf8(a),
        a.len() == 0 || a.last() == 10,
    ensures
        readable_lines(a + b) == readable_lines(a) + readable_lines(b),
        read_fails(a + b) == read_fails(b),
    decreases a.len(),
{
    if a.len() == 0 {
        assert(a + b =~= b);
        assert(readable_lines(a) =~= Seq::<Seq<char>>::empty());
        assert(readable_lines(a) + readable_lines(b) =~= readable_lines(b));
    } else {
        lemma_line_len_bounds(a);
        lemma_first_line_utf8(a);
        lemma_line_len_concat(a, b);
        let rest = after_first_line(a);
        if rest.len() > 0 {
            assert(rest.last() == a.last());
        }
        lemma_readable_concat(rest, b);
        lemma_readable_step(a);
        lemma_line_len_bounds(a + b);
        assert((a + b).len() > 0);
        lemma_readable_step(a + b);
        assert(readable_lines(a + b) =~= readable_lines(a) + readable_lines(b));
    }
}

/// Reading an input line by line fails exactly when the input is not UTF-8.
pub proof fn read_fails_iff_not_utf8(b: Seq<u8>)
    ensures
        read_fails(b) <==> !valid_utf8(b),
    decreases b.len(),
{
    if valid_utf8(b) {
        readable_lines_rebuild_text(b);
    } else if b.len() > 0 {
        lemma_line_len_bounds(b);
        let rest = after_first_line(b);
        read_fails_iff_not_utf8(rest);
        if valid_utf8(first_line(b)) && valid_utf8(rest) {
            vstd::utf8::valid_utf8_concat(first_line(b), rest);
            assert(first_line(b) + rest =~= b);
        }
    } else {
        reveal_with_fuel(valid_utf8, 1);
    }
}

} // verus!
