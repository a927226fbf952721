//! Showing the lines of a source, with line numbers when asked for.
//!
//! Lines are taken without their terminators. With `number_lines` every
//! line is numbered from one; otherwise, with `number_nonblank_lines`, only
//! the lines that are not empty are shown, numbered among themselves;
//! otherwise every line is shown as it is.

use vstd::prelude::*;
use vstd::string::StringExecFns;
use crate::fmt::{decimal, push_right_aligned, right_align};
use crate::text::texts;

verus! {

/// Which sources to show and how to number their lines.
#[derive(Debug)]
pub struct Config {
    pub files: Vec<String>,
    pub number_lines: bool,
    pub number_nonblank_lines: bool,
}

/// A line behind its number: the number right-aligned in six characters, a
/// tab, and the line.
pub open spec fn numbered(n: nat, line: Seq<char>) -> Seq<char> {
    right_align(decimal(n), 6) + seq!['\t'] + line
}

/// How many of `ls` are not empty.
pub open spec fn nonblank(ls: Seq<Seq<char>>) -> nat
    decreases ls.len(),
{
    if ls.len() == 0 {
        0
    } else {
        nonblank(ls.drop_last()) + if ls.last().len() > 0 {
            1nat
        } else {
            0nat
        }
    }
}

/// What is shown for `line`, if anything, when it is the `seen`-th line of
/// its source and the `filled`-th of those that are not empty.
pub open spec fn row_for(config: &Config, seen: nat, filled: nat, line: Seq<char>) -> Option<
    Seq<char>,
> {
    if config.number_lines {
        Some(numbered(seen, line))
    } else if config.number_nonblank_lines {
        if line.len() > 0 {
            Some(numbered(filled, line))
        } else {
            None
        }
    } else {
        Some(line)
    }
}

/// What is shown for the last of the lines `ls`, if anything.
pub open spec fn shown_last(config: &Config, ls: Seq<Seq<char>>) -> Option<Seq<char>>
    recommends
        ls.len() > 0,
{
    row_for(config, ls.len(), nonblank(ls), ls.last())
}

/// What is shown for the lines `ls`, row by row.
pub open spec fn shown(config: &Config, ls: Seq<Seq<char>>) -> Seq<Seq<char>>
    decreases ls.len(),
{
    if ls.len() == 0 {
        Seq::empty()
    } else {
        match shown_last(config, ls) {
            Some(row) => shown(config, ls.drop_last()).push(row),
            None => shown(config, ls.drop_last()),
        }
    }
}

/// How far into a source the numbering has come.
#[derive(Debug, Clone, Copy, PartialEq, Eq, Structural)]
pub struct Numbering {
    /// The number of lines taken in.
    pub seen: usize,
    /// How many of them were not empty.
    pub filled: usize,
}

impl Numbering {
    /// No more lines were found not empty than were taken in.
    pub open spec fn well_formed(&self) -> bool {
        self.filled <= self.seen
    }

    /// Whether this is the numbering after the lines `ls`.
    pub open spec fn after(&self, ls: Seq<Seq<char>>) -> bool {
        self.seen == ls.len() && self.filled == nonblank(ls)
    }

    /// The numbering at the start of a source.
    pub fn new() -> (n: Numbering)
        ensures
            n.seen == 0,
            n.filled == 0,
            n.well_formed(),
    {
        Numbering { seen: 0, filled: 0 }
    }

    /// Takes in the next line and returns what is shown for it, if
    /// anything.
    pub fn next(&mut self, config: &Config, line: &str) -> (out: Option<String>)
        requires
            old(self).well_formed(),
            old(self).seen < usize::MAX,
        ensures
            final(self).well_formed(),
            final(self).seen == old(self).seen + 1,
            final(self).filled == old(self).filled + if line@.len() > 0 {
                1nat
            } else {
                0nat
            },
            match row_for(config, final(self).seen as nat, final(self).filled as nat, line@) {
                Some(row) => out matches Some(s) && s@ == row,
                None => out is None,
            },
    {
        let blank = line.unicode_len() == 0;
        self.seen = self.seen + 1;
        if !blank {
            self.filled = self.filled + 1;
        }
        if config.number_lines {
            Some(number_line(self.seen, line))
        } else if config.number_nonblank_lines {
            if blank {
                None
            } else {
                Some(number_line(self.filled, line))
            }
        } else {
            Some(String::from_str(line))
        }
    }
}

/// Writes `line` behind the number `n`: see [`numbered`].
pub fn number_line(n: usize, line: &str) -> (out: String)
    ensures
        out@ == numbered(n as nat, line@),
{
    let mut out = String::new();
    push_right_aligned(&mut out, n as u64, 6);
    out.push('\t');
    out.append(line);
    proof {
        assert(out@ =~= numbered(n as nat, line@));
    }
    out
}

/// What is shown for `lines`, row by row.
pub fn show_lines(config: &Config, lines: &Vec<String>) -> (out: Vec<String>)
    ensures
        texts(out@) == shown(config, texts(lines@)),
{
    let mut out: Vec<String> = Vec::new();
    let mut state = Numbering::new();
    let mut i: usize = 0;
    proof {
        assert(texts(lines@).take(0) =~= Seq::<Seq<char>>::empty());
        assert(texts(out@) =~= shown(config, texts(lines@).take(0)));
    }
    while i < lines.len()
        invariant
            i <= lines.len(),
            state.well_formed(),
            state.after(texts(lines@).take(i as int)),
            texts(out@) == shown(config, texts(lines@).take(i as int)),
        decreases lines.len() - i,
    {
        let ghost seen = texts(lines@).take(i as int);
        let ghost rows_before = texts(out@);
        proof {
            assert(seen.push(lines@[i as int]@) =~= texts(lines@).take(i + 1));
            assert(seen.push(lines@[i as int]@).drop_last() =~= seen);
        }
        match state.next(config, lines[i].as_str()) {
            Some(row) => {
                out.push(row);
                proof {
                    assert(texts(out@) =~= rows_before.push(row@));
                }
            },
            None => {},
        }
        i = i + 1;
    }
    proof {
        assert(texts(lines@).take(lines.len() as int) =~= texts(lines@));
    }
    out
}

} // verus!
