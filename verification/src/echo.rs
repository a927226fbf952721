//! Putting words on one line.

use vstd::prelude::*;
use vstd::string::StringExecFns;
use crate::text::texts;

verus! {

/// `words` in order, with one blank between each two of them.
pub open spec fn spaced(words: Seq<Seq<char>>) -> Seq<char>
    decreases words.len(),
{
    if words.len() == 0 {
        Seq::empty()
    } else if words.len() == 1 {
        words[0]
    } else {
        spaced(words.drop_last()) + seq![' '] + words.last()
    }
}

/// The line that shows `words`: the words with blanks between them, closed
/// by a line feed unless that is left out.
pub open spec fn echoed(words: Seq<Seq<char>>, omit_newline: bool) -> Seq<char> {
    if omit_newline {
        spaced(words)
    } else {
        spaced(words).push('\n')
    }
}

/// Writes the line that shows `words`: see [`echoed`].
pub fn echo(words: &Vec<String>, omit_newline: bool) -> (out: String)
    ensures
        out@ == echoed(texts(words@), omit_newline),
{
    let mut out = String::new();
    let mut i: usize = 0;
    proof {
        assert(texts(words@).take(0) =~= Seq::<Seq<char>>::empty());
    }
    while i < words.len()
        invariant
            i <= words.len(),
            out@ == spaced(texts(words@).take(i as int)),
        decreases words.len() - i,
    {
        proof {
            let next = texts(words@).take(i + 1);
            assert(next.drop_last() =~= texts(words@).take(i as int));
            assert(next.last() == words@[i as int]@);
            assert(next[0] == words@[0]@);
        }
        let ghost before = out@;
        if i > 0 {
            out.push(' ');
        }
        out.append(words[i].as_str());
        proof {
            if i == 0 {
                assert(out@ =~= words@[0]@);
            } else {
                assert(out@ =~= before + seq![' '] + words@[i as int]@);
            }
        }
        i = i + 1;
    }
    proof {
        assert(texts(words@).take(words.len() as int) =~= texts(words@));
    }
    if !omit_newline {
        out.push('\n');
    }
    out
}

} // verus!
