//! What the tools are handed and what they hand back.
use vstd::prelude::*;

verus! {

/// One input named on the command line, as the caller found it.
pub enum Source {
    /// The bytes that the file (or standard input) holds.
    Contents(Vec<u8>),
    /// The file could not be opened; the text of the system's error.
    Unavailable(String),
    /// The file was opened, but reading it failed (as reading a directory
    /// does); the text of the system's error.
    Unreadable(String),
}

/// What a tool produced: its standard output, its standard error, and the
/// message of the error that ended it early, where one did.
pub struct Report {
    pub out: String,
    pub err: String,
    pub failure: Option<String>,
}

/// The characters of the text `s` holds, if any.
pub open spec fn opt_view(s: Option<String>) -> Option<Seq<char>> {
    match s {
        Some(t) => Some(t@),
        None => None,
    }
}

/// The line that reports an input that could not be opened:
/// `{name}: {error}` and a newline.
pub open spec fn unavailable_line(name: Seq<char>, error: Seq<char>) -> Seq<char> {
    name + seq![':', ' '] + error + seq!['\n']
}

/// Appends `{name}: {error}` and a newline to `err`.
pub fn push_unavailable(err: &mut String, name: &str, error: &str)
    ensures
        final(err)@ == old(err)@ + unavailable_line(name@, error@),
{
    err.append(name);
    err.push(':');
    err.push(' ');
    err.append(error);
    err.push('\n');
    assert(final(err)@ =~= old(err)@ + unavailable_line(name@, error@));
}

} // verus!
