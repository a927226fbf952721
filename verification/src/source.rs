//! Telling standard input from a named file.

use vstd::prelude::*;
use vstd::string::StringExecFns;
use crate::text::chars_of;

verus! {

/// Where a source token points.
#[derive(Debug, Clone, PartialEq, Eq)]
pub enum Source {
    /// The token is a lone dash: read standard input.
    Stdin,
    /// Any other token names a file.
    File(String),
}

/// The token that stands for standard input: a lone dash.
pub open spec fn is_stdin_token(name: Seq<char>) -> bool {
    name == seq!['-']
}

/// Whether `name` stands for standard input.
pub fn is_stdin(name: &str) -> (r: bool)
    ensures
        r == is_stdin_token(name@),
{
    let v = chars_of(name);
    let r = v.len() == 1 && v[0] == '-';
    proof {
        if r {
            assert(v@ =~= seq!['-']);
        }
    }
    r
}

/// Resolves a source token: a lone dash is standard input, anything else is
/// the path of a file, taken as it is.
pub fn resolve(name: &str) -> (src: Source)
    ensures
        src is Stdin <==> is_stdin_token(name@),
        src matches Source::File(path) ==> path@ == name@,
{
    if is_stdin(name) {
        Source::Stdin
    } else {
        Source::File(String::from_str(name))
    }
}

} // verus!
