//! `echo`: prints its arguments.
use vstd::prelude::*;
use crate::text::{join, join_strings, views};

verus! {

/// The settings of one run.
pub struct Options {
    pub text: Vec<String>,
    pub omit_newline: bool,
}

/// What `echo` prints: the words joined by single spaces, then a newline
/// unless it is left out.
pub open spec fn echo_out(o: Options) -> Seq<char> {
    join(views(o.text@), seq![' ']) + if o.omit_newline {
        seq![]
    } else {
        seq!['\n']
    }
}

/// Runs `echo`: returns what it prints.
pub fn run(options: &Options) -> (r: String)
    ensures
        r@ == echo_out(*options),
{
    let mut sep = String::new();
    sep.push(' ');
    let mut r = join_strings(&options.text, sep.as_str());
    if !options.omit_newline {
        r.push('\n');
    }
    assert(r@ =~= echo_out(*options));
    r
}

} // verus!
