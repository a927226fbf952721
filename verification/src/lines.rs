//! Splitting a text into lines and putting lines back together.
//!
//! A line is a maximal stretch of the text that ends right after a line
//! feed; the last line of a text may lack the line feed. Terminators are
//! part of the line, so that joining the lines of a text gives the text
//! back unchanged.

use vstd::prelude::*;
use vstd::string::StringExecFns;
use crate::text::texts;

verus! {

/// Whether `line` is closed by a line feed.
pub open spec fn ends_line(line: Seq<char>) -> bool {
    line.len() > 0 && line.last() == '\n'
}

/// The lines of `s`, terminators included.
///
/// Reading `s` one character at a time, a character joins the last line as
/// long as that line is still open, and starts a new line otherwise.
pub open spec fn lines_of(s: Seq<char>) -> Seq<Seq<char>>
    decreases s.len(),
{
    if s.len() == 0 {
        Seq::empty()
    } else {
        let before = lines_of(s.drop_last());
        if before.len() > 0 && !ends_line(before.last()) {
            before.drop_last().push(before.last().push(s.last()))
        } else {
            before.push(seq![s.last()])
        }
    }
}

/// All the lines of `ls`, one after the other.
pub open spec fn concat(ls: Seq<Seq<char>>) -> Seq<char>
    decreases ls.len(),
{
    if ls.len() == 0 {
        Seq::empty()
    } else {
        concat(ls.drop_last()) + ls.last()
    }
}

/// A line is not empty and holds no line feed before its last character.
pub open spec fn proper_line(line: Seq<char>) -> bool {
    &&& line.len() > 0
    &&& forall|i: int| 0 <= i < line.len() - 1 ==> line[i] != '\n'
}

/// `ls` is what some text splits into: proper lines, all of them closed by
/// a line feed except possibly the last.
pub open spec fn well_formed(ls: Seq<Seq<char>>) -> bool {
    forall|i: int|
        0 <= i < ls.len() ==> {
            &&& proper_line(#[trigger] ls[i])
            &&& (i < ls.len() - 1 ==> ends_line(ls[i]))
        }
}

/// A text has a line exactly when it is not empty, and its last line is
/// closed exactly when the text ends in a line feed.
pub proof fn lemma_last_line(s: Seq<char>)
    ensures
        lines_of(s).len() > 0 <==> s.len() > 0,
        lines_of(s).len() <= s.len(),
        s.len() > 0 ==> (ends_line(lines_of(s).last()) <==> s.last() == '\n'),
    decreases s.len(),
{
    if s.len() > 0 {
        lemma_last_line(s.drop_last());
    }
}

/// Joining the lines of a text gives the text back.
pub proof fn lemma_concat_lines(s: Seq<char>)
    ensures
        concat(lines_of(s)) == s,
    decreases s.len(),
{
    if s.len() > 0 {
        let t = s.drop_last();
        let before = lines_of(t);
        lemma_concat_lines(t);
        if before.len() > 0 && !ends_line(before.last()) {
            let after = before.drop_last().push(before.last().push(s.last()));
            assert(after.drop_last() =~= before.drop_last());
            assert(concat(after) =~= concat(before).push(s.last()));
        } else {
            let after = before.push(seq![s.last()]);
            assert(after.drop_last() =~= before);
            assert(concat(after) =~= concat(before).push(s.last()));
        }
        assert(t.push(s.last()) =~= s);
    }
}

/// The lines of a text are well formed.
pub proof fn lemma_lines_well_formed(s: Seq<char>)
    ensures
        well_formed(lines_of(s)),
    decreases s.len(),
{
    if s.len() > 0 {
        lemma_lines_well_formed(s.drop_last());
    }
}

/// A well-formed sequence of lines is the set of lines of its own
/// concatenation: splitting undoes joining.
pub proof fn lemma_lines_of_concat(ls: Seq<Seq<char>>)
    requires
        well_formed(ls),
    ensures
        lines_of(concat(ls)) == ls,
    decreases concat(ls).len(),
{
    if ls.len() > 0 {
        let last = ls.last();
        let front = ls.drop_last();
        let s = concat(ls);
        assert(proper_line(last));
        assert(s.drop_last() =~= concat(front) + last.drop_last());
        if last.len() == 1 {
            assert(last.drop_last() =~= Seq::<char>::empty());
            assert(s.drop_last() =~= concat(front));
            assert(well_formed(front)) by {
                assert forall|i: int| 0 <= i < front.len() implies proper_line(#[trigger] front[i])
                    && (i < front.len() - 1 ==> ends_line(front[i])) by {
                    assert(front[i] == ls[i]);
                }
            }
            lemma_lines_of_concat(front);
            if front.len() > 0 {
                assert(front.last() == ls[front.len() - 1]);
            }
            assert(seq![s.last()] =~= last);
            assert(front.push(last) =~= ls);
        } else {
            let shorter = front.push(last.drop_last());
            assert(shorter.drop_last() =~= front);
            assert(concat(shorter) =~= s.drop_last());
            assert(well_formed(shorter)) by {
                assert forall|i: int| 0 <= i < shorter.len() implies proper_line(
                    #[trigger] shorter[i],
                ) && (i < shorter.len() - 1 ==> ends_line(shorter[i])) by {
                    if i < front.len() {
                        assert(shorter[i] == ls[i]);
                    }
                }
            }
            lemma_lines_of_concat(shorter);
            assert(!ends_line(shorter.last())) by {
                assert(last[last.len() - 2] != '\n');
            }
            assert(last.drop_last().push(s.last()) =~= last);
            assert(shorter.drop_last().push(last) =~= ls);
        }
    }
}

/// Splits `text` into its lines.
pub fn split_lines(text: &str) -> (out: Vec<String>)
    ensures
        texts(out@) == lines_of(text@),
{
    broadcast use vstd::string::group_string_axioms;

    let mut out: Vec<String> = Vec::new();
    let mut cur = String::new();
    let mut open = false;
    proof {
        assert(text@.take(0) =~= Seq::<char>::empty());
        assert(texts(out@) =~= lines_of(text@.take(0)));
    }
    for c in it: text.chars()
        invariant
            it.seq() == text@,
            open ==> lines_of(text@.take(it.index())) == texts(out@).push(cur@),
            open ==> !ends_line(cur@) && cur@.len() > 0,
            !open ==> lines_of(text@.take(it.index())) == texts(out@),
            !open ==> cur@.len() == 0,
            !open && out@.len() > 0 ==> ends_line(out@.last()@),
    {
        let ghost lines_before = texts(out@);
        let ghost cur_before = cur@;
        let ghost p = text@.take(it.index() + 1);
        proof {
            assert(p.drop_last() =~= text@.take(it.index()));
            assert(p.last() == c);
            if open {
                assert(lines_before.push(cur_before).drop_last() =~= lines_before);
                assert(lines_of(p) == lines_before.push(cur_before.push(c)));
            } else {
                if out@.len() > 0 {
                    assert(lines_before.last() == out@.last()@);
                }
                assert(cur_before.push(c) =~= seq![c]);
                assert(lines_of(p) == lines_before.push(cur_before.push(c)));
            }
        }
        cur.push(c);
        if c == '\n' {
            out.push(cur);
            cur = String::new();
            open = false;
            proof {
                assert(texts(out@) =~= lines_before.push(cur_before.push(c)));
            }
        } else {
            open = true;
            proof {
                assert(texts(out@) =~= lines_before);
            }
        }
    }
    proof {
        assert(text@.take(text@.len() as int) =~= text@);
    }
    if open {
        let ghost lines_before = texts(out@);
        out.push(cur);
        proof {
            assert(texts(out@) =~= lines_before.push(cur@));
        }
    }
    out
}

/// Joins `lines` into one text.
pub fn join_lines(lines: &Vec<String>) -> (out: String)
    ensures
        out@ == concat(texts(lines@)),
{
    let mut out = String::new();
    let mut i: usize = 0;
    while i < lines.len()
        invariant
            i <= lines.len(),
            out@ == concat(texts(lines@).take(i as int)),
        decreases lines.len() - i,
    {
        proof {
            let next = texts(lines@).take(i + 1);
            assert(next.drop_last() =~= texts(lines@).take(i as int));
            assert(next.last() == lines@[i as int]@);
        }
        out.append(lines[i].as_str());
        i = i + 1;
    }
    proof {
        assert(texts(lines@).take(lines.len() as int) =~= texts(lines@));
    }
    out
}

} // verus!
