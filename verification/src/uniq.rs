//! Collapsing runs of adjacent lines that are equal up to trailing white
//! space.
//!
//! A run is a maximal stretch of such lines. It is written out once, as its
//! first line, when a line of different content follows or when the input
//! ends, and it can carry the number of lines it stands for.

use vstd::prelude::*;
use vstd::string::StringExecFns;
use crate::fmt::{decimal, push_right_aligned, right_align};
use crate::lines::{
    concat, ends_line, join_lines, lemma_lines_of_concat, lemma_lines_well_formed, lines_of,
    proper_line, split_lines, well_formed,
};
use crate::source::{is_stdin, is_stdin_token};
use crate::text::{same_content, same_line, texts};

verus! {

/// Where to read from, where to write to, and whether rows carry counts.
#[derive(Debug)]
pub struct Config {
    pub in_file: String,
    pub out_file: Option<String>,
    pub count: bool,
}

/// The file that a destination token names: none for a missing token and
/// for the lone dash, which both stand for standard output.
pub open spec fn named_file(token: Option<Seq<char>>) -> Option<Seq<char>> {
    match token {
        Some(name) => if is_stdin_token(name) {
            None
        } else {
            Some(name)
        },
        None => None,
    }
}

impl Config {
    /// The configuration for reading `in_file` and writing to what
    /// `out_file` names: see [`named_file`].
    pub fn new(in_file: String, out_file: Option<String>, count: bool) -> (config: Config)
        ensures
            config.in_file@ == in_file@,
            config.count == count,
            match named_file(
                match out_file {
                    Some(name) => Some(name@),
                    None => None,
                },
            ) {
                Some(name) => config.out_file matches Some(f) && f@ == name,
                None => config.out_file is None,
            },
    {
        let target = match out_file {
            Some(name) => if is_stdin(name.as_str()) {
                None
            } else {
                Some(name)
            },
            None => None,
        };
        Config { in_file, out_file: target, count }
    }
}

/// A finished run: its first line as it was read, terminator included, and
/// the number of lines in it.
#[derive(Debug, Clone, PartialEq, Eq)]
pub struct Run {
    pub text: String,
    pub count: u64,
}

/// A run as a mathematical value.
pub struct RunSpec {
    pub text: Seq<char>,
    pub count: nat,
}

impl View for Run {
    type V = RunSpec;

    open spec fn view(&self) -> RunSpec {
        RunSpec { text: self.text@, count: self.count as nat }
    }
}

/// The runs of `ls`, in order.
///
/// Reading `ls` one line at a time, a line joins the last run when its
/// content equals that of the run's first line, and starts a run of its own
/// otherwise.
pub open spec fn runs_of(ls: Seq<Seq<char>>) -> Seq<RunSpec>
    decreases ls.len(),
{
    if ls.len() == 0 {
        Seq::empty()
    } else {
        let before = runs_of(ls.drop_last());
        if before.len() > 0 && same_content(before.last().text, ls.last()) {
            before.drop_last().push(
                RunSpec { text: before.last().text, count: before.last().count + 1 },
            )
        } else {
            before.push(RunSpec { text: ls.last(), count: 1 })
        }
    }
}

/// The row for `run`: its line as it stands, after the count right-aligned
/// in four characters and one blank when counts are asked for.
pub open spec fn row(run: RunSpec, emit_counts: bool) -> Seq<char> {
    if emit_counts {
        right_align(decimal(run.count), 4) + seq![' '] + run.text
    } else {
        run.text
    }
}

/// The rows for `runs`, one each.
pub open spec fn rows(runs: Seq<RunSpec>, emit_counts: bool) -> Seq<Seq<char>> {
    Seq::new(runs.len(), |i: int| row(runs[i], emit_counts))
}

/// What collapsing the lines `ls` writes, row by row.
pub open spec fn dedup_lines(ls: Seq<Seq<char>>, emit_counts: bool) -> Seq<Seq<char>> {
    rows(runs_of(ls), emit_counts)
}

/// What collapsing the text `s` writes.
pub open spec fn dedup_text(s: Seq<char>, emit_counts: bool) -> Seq<char> {
    concat(dedup_lines(lines_of(s), emit_counts))
}

/// The run being read, if any.
pub struct RunState {
    held: Option<Run>,
}

impl View for RunState {
    type V = Option<RunSpec>;

    closed spec fn view(&self) -> Option<RunSpec> {
        match self.held {
            Some(run) => Some(run@),
            None => None,
        }
    }
}

/// The state after reading `ls` from the start: the last of their runs.
pub open spec fn held_after(ls: Seq<Seq<char>>) -> Option<RunSpec> {
    if ls.len() == 0 {
        None
    } else {
        Some(runs_of(ls).last())
    }
}

/// The runs already written after reading `ls`: all but the last.
pub open spec fn written_after(ls: Seq<Seq<char>>) -> Seq<RunSpec> {
    if ls.len() == 0 {
        Seq::empty()
    } else {
        runs_of(ls).drop_last()
    }
}

impl RunState {
    /// A run that is held stands for at least one line.
    pub open spec fn well_formed(&self) -> bool {
        self@ matches Some(run) ==> run.count >= 1
    }

    /// The state before any line is read: no run is held.
    pub fn new() -> (state: RunState)
        ensures
            state@ is None,
            state.well_formed(),
    {
        RunState { held: None }
    }

    /// The number of lines in the run that is held; zero when none is.
    pub fn pending(&self) -> (n: u64)
        ensures
            n == match self@ {
                Some(run) => run.count,
                None => 0,
            },
    {
        match &self.held {
            Some(run) => run.count,
            None => 0,
        }
    }

    /// Takes in the next line. A line of the same content as the held run
    /// joins it; any other line starts a new run, and the run held until
    /// then, if there was one, is handed out to be written.
    pub fn feed(&mut self, line: &str) -> (done: Option<Run>)
        requires
            old(self)@ matches Some(run) ==> run.count < u64::MAX,
        ensures
            final(self).well_formed(),
            old(self).well_formed() ==> (done matches Some(d) ==> d.count >= 1),
            match old(self)@ {
                Some(run) => if same_content(run.text, line@) {
                    &&& done is None
                    &&& final(self)@ == Some(RunSpec { text: run.text, count: run.count + 1 })
                } else {
                    &&& done matches Some(d)
                    &&& d@ == run
                    &&& final(self)@ == Some(RunSpec { text: line@, count: 1 })
                },
                None => {
                    &&& done is None
                    &&& final(self)@ == Some(RunSpec { text: line@, count: 1 })
                },
            },
    {
        match self.held.take() {
            Some(run) => {
                if same_line(run.text.as_str(), line) {
                    self.held = Some(Run { text: run.text, count: run.count + 1 });
                    None
                } else {
                    self.held = Some(Run { text: String::from_str(line), count: 1 });
                    Some(run)
                }
            },
            None => {
                self.held = Some(Run { text: String::from_str(line), count: 1 });
                None
            },
        }
    }

    /// Ends the input: the run still held, if any, is handed out.
    pub fn finish(self) -> (done: Option<Run>)
        ensures
            self.well_formed() ==> (done matches Some(d) ==> d.count >= 1),
            match self@ {
                Some(run) => done matches Some(d) && d@ == run,
                None => done is None,
            },
    {
        self.held
    }
}

/// Feeding one more line moves the state from what it is after `ls` to what
/// it is after `ls` and that line, and hands out exactly the run that this
/// line closes.
pub proof fn lemma_feed_follows_runs(ls: Seq<Seq<char>>, line: Seq<char>)
    ensures
        match held_after(ls) {
            Some(run) => if same_content(run.text, line) {
                &&& held_after(ls.push(line)) == Some(
                    RunSpec { text: run.text, count: run.count + 1 },
                )
                &&& written_after(ls.push(line)) == written_after(ls)
            } else {
                &&& held_after(ls.push(line)) == Some(RunSpec { text: line, count: 1 })
                &&& written_after(ls.push(line)) == written_after(ls).push(run)
            },
            None => {
                &&& held_after(ls.push(line)) == Some(RunSpec { text: line, count: 1 })
                &&& written_after(ls.push(line)) == Seq::<RunSpec>::empty()
            },
        },
        ls.len() > 0 ==> runs_of(ls).len() > 0,
        ls.len() > 0 ==> runs_of(ls) == written_after(ls).push(held_after(ls)->0),
{
    let next = ls.push(line);
    assert(next.drop_last() =~= ls);
    lemma_runs_nonempty(ls);
    if ls.len() > 0 {
        let before = runs_of(ls);
        assert(before =~= before.drop_last().push(before.last()));
        if same_content(before.last().text, line) {
            assert(runs_of(next).drop_last() =~= before.drop_last());
        } else {
            assert(runs_of(next).drop_last() =~= before);
        }
    } else {
        assert(runs_of(next).drop_last() =~= Seq::<RunSpec>::empty());
    }
}

/// Lines that are not all gone leave at least one run, and no more runs
/// than lines.
pub proof fn lemma_runs_nonempty(ls: Seq<Seq<char>>)
    ensures
        ls.len() > 0 ==> runs_of(ls).len() > 0,
        runs_of(ls).len() <= ls.len(),
    decreases ls.len(),
{
    if ls.len() > 0 {
        lemma_runs_nonempty(ls.drop_last());
    }
}

/// The number of lines that `runs` stand for.
pub open spec fn lines_in(runs: Seq<RunSpec>) -> nat
    decreases runs.len(),
{
    if runs.len() == 0 {
        0
    } else {
        lines_in(runs.drop_last()) + runs.last().count
    }
}

/// The counts of the runs of `ls` add up to the number of lines, and every
/// run stands for at least one line.
pub proof fn lemma_run_counts(ls: Seq<Seq<char>>)
    ensures
        forall|i: int| 0 <= i < runs_of(ls).len() ==> #[trigger] runs_of(ls)[i].count >= 1,
        lines_in(runs_of(ls)) == ls.len(),
        ls.len() > 0 ==> runs_of(ls).last().count <= ls.len(),
    decreases ls.len(),
{
    if ls.len() > 0 {
        lemma_run_counts(ls.drop_last());
        lemma_runs_nonempty(ls.drop_last());
        let before = runs_of(ls.drop_last());
        let after = runs_of(ls);
        if before.len() > 0 && same_content(before.last().text, ls.last()) {
            assert(after.drop_last() =~= before.drop_last());
        } else {
            assert(after.drop_last() =~= before);
        }
    }
}

/// Renders the row for `run`: see [`row`].
pub fn render(run: &Run, emit_counts: bool) -> (out: String)
    ensures
        out@ == row(run@, emit_counts),
{
    let mut out = String::new();
    if emit_counts {
        push_right_aligned(&mut out, run.count, 4);
        out.push(' ');
    }
    out.append(run.text.as_str());
    proof {
        assert(out@ =~= row(run@, emit_counts));
    }
    out
}

/// Collapses `lines`: one row per run, in order, each the first line of its
/// run, with the run's length in front when `emit_counts` is set.
pub fn dedup(lines: &Vec<String>, emit_counts: bool) -> (out: Vec<String>)
    ensures
        texts(out@) == dedup_lines(texts(lines@), emit_counts),
{
    let mut out: Vec<String> = Vec::new();
    let mut state = RunState::new();
    let mut i: usize = 0;
    proof {
        assert(texts(lines@).take(0) =~= Seq::<Seq<char>>::empty());
        assert(texts(out@) =~= rows(written_after(texts(lines@).take(0)), emit_counts));
    }
    while i < lines.len()
        invariant
            i <= lines.len(),
            state@ == held_after(texts(lines@).take(i as int)),
            texts(out@) == rows(written_after(texts(lines@).take(i as int)), emit_counts),
        decreases lines.len() - i,
    {
        let ghost seen = texts(lines@).take(i as int);
        let ghost rows_before = texts(out@);
        proof {
            assert(seen.push(lines@[i as int]@) =~= texts(lines@).take(i + 1));
            lemma_feed_follows_runs(seen, lines@[i as int]@);
            lemma_run_counts(seen);
        }
        match state.feed(lines[i].as_str()) {
            Some(run) => {
                let r = render(&run, emit_counts);
                out.push(r);
                proof {
                    assert(texts(out@) =~= rows_before.push(row(run@, emit_counts)));
                    assert(rows(written_after(seen).push(run@), emit_counts) =~= rows(
                        written_after(seen),
                        emit_counts,
                    ).push(row(run@, emit_counts)));
                }
            },
            None => {},
        }
        i = i + 1;
    }
    let ghost all = texts(lines@);
    let ghost rows_before = texts(out@);
    proof {
        assert(all.take(lines.len() as int) =~= all);
        lemma_feed_follows_runs(all, Seq::empty());
    }
    match state.finish() {
        Some(run) => {
            let r = render(&run, emit_counts);
            out.push(r);
            proof {
                assert(texts(out@) =~= rows_before.push(row(run@, emit_counts)));
                assert(rows(written_after(all).push(run@), emit_counts) =~= rows(
                    written_after(all),
                    emit_counts,
                ).push(row(run@, emit_counts)));
            }
        },
        None => {
            proof {
                assert(runs_of(all) =~= Seq::<RunSpec>::empty());
                assert(texts(out@) =~= dedup_lines(all, emit_counts));
            }
        },
    }
    out
}

/// Collapses the lines of `text` and joins the rows into one text.
pub fn uniq(text: &str, emit_counts: bool) -> (out: String)
    ensures
        out@ == dedup_text(text@, emit_counts),
{
    let lines = split_lines(text);
    let kept = dedup(&lines, emit_counts);
    join_lines(&kept)
}

/// Whether line `i` of `ls` has the content of the line before it.
pub open spec fn repeats_at(ls: Seq<Seq<char>>, i: int) -> bool {
    same_content(ls[i - 1], ls[i])
}

/// No line of `ls` has the content of the line before it.
pub open spec fn no_repeats(ls: Seq<Seq<char>>) -> bool {
    forall|i: int| 0 < i < ls.len() ==> !#[trigger] repeats_at(ls, i)
}

/// Every row written without counts is one of the lines read, and the last
/// row is the last line read, or else all rows are among the lines before
/// the last.
pub proof fn lemma_rows_are_lines(ls: Seq<Seq<char>>)
    ensures
        forall|i: int|
            0 <= i < runs_of(ls).len() ==> exists|j: int|
                0 <= j < ls.len() && ls[j] == #[trigger] runs_of(ls)[i].text && (j == ls.len() - 1
                    ==> i == runs_of(ls).len() - 1),
    decreases ls.len(),
{
    if ls.len() > 0 {
        let front = ls.drop_last();
        lemma_rows_are_lines(front);
        let before = runs_of(front);
        let after = runs_of(ls);
        assert forall|i: int| 0 <= i < after.len() implies exists|j: int|
            0 <= j < ls.len() && ls[j] == #[trigger] after[i].text && (j == ls.len() - 1 ==> i
                == after.len() - 1) by {
            if i < before.len() {
                assert(after[i].text == before[i].text);
                let j = choose|j: int|
                    0 <= j < front.len() && front[j] == before[i].text && (j == front.len() - 1
                        ==> i == before.len() - 1);
                assert(ls[j] == front[j]);
            } else {
                assert(ls[ls.len() - 1] == after[i].text);
            }
        }
    }
}

/// Adjacent rows never have the same content: no further collapsing is
/// possible.
pub proof fn lemma_rows_do_not_repeat(ls: Seq<Seq<char>>)
    ensures
        no_repeats(dedup_lines(ls, false)),
    decreases ls.len(),
{
    if ls.len() > 0 {
        lemma_rows_do_not_repeat(ls.drop_last());
        let before = dedup_lines(ls.drop_last(), false);
        let after = dedup_lines(ls, false);
        assert forall|i: int| 0 < i < after.len() implies !#[trigger] repeats_at(after, i) by {
            if i < before.len() {
                assert(after[i - 1] == before[i - 1]);
                assert(after[i] == before[i]);
                assert(!repeats_at(before, i));
            }
        }
    }
}

/// Lines without repeats are runs of one line each, so collapsing them
/// without counts writes them back unchanged.
pub proof fn lemma_dedup_without_repeats(ls: Seq<Seq<char>>)
    requires
        no_repeats(ls),
    ensures
        dedup_lines(ls, false) == ls,
        forall|i: int| 0 <= i < runs_of(ls).len() ==> #[trigger] runs_of(ls)[i].count == 1,
    decreases ls.len(),
{
    if ls.len() > 0 {
        let front = ls.drop_last();
        assert(no_repeats(front)) by {
            assert forall|i: int| 0 < i < front.len() implies !#[trigger] repeats_at(front, i) by {
                assert(front[i - 1] == ls[i - 1]);
                assert(front[i] == ls[i]);
                assert(!repeats_at(ls, i));
            }
        }
        lemma_dedup_without_repeats(front);
        let before = runs_of(front);
        if before.len() > 0 {
            assert(before.len() == front.len());
            assert(dedup_lines(front, false)[before.len() - 1] == before.last().text);
            assert(front[front.len() - 1] == ls[ls.len() - 2]);
            assert(!repeats_at(ls, ls.len() - 1));
        }
        let after = runs_of(ls);
        assert(after == before.push(RunSpec { text: ls.last(), count: 1 }));
        assert forall|i: int| 0 <= i < ls.len() implies dedup_lines(ls, false)[i] == ls[i] by {
            if i < front.len() {
                assert(after[i] == before[i]);
                assert(dedup_lines(front, false)[i] == before[i].text);
                assert(front[i] == ls[i]);
            }
        }
        assert(dedup_lines(ls, false) =~= ls);
    } else {
        assert(dedup_lines(ls, false) =~= ls);
    }
}

/// Collapsing is idempotent: what was written without counts, read again
/// as lines, is written back unchanged.
pub proof fn lemma_dedup_idempotent(ls: Seq<Seq<char>>)
    ensures
        dedup_lines(dedup_lines(ls, false), false) == dedup_lines(ls, false),
{
    lemma_rows_do_not_repeat(ls);
    lemma_dedup_without_repeats(dedup_lines(ls, false));
}

/// The rows written for well-formed lines are well-formed lines themselves.
pub proof fn lemma_rows_well_formed(ls: Seq<Seq<char>>)
    requires
        well_formed(ls),
    ensures
        well_formed(dedup_lines(ls, false)),
{
    lemma_rows_are_lines(ls);
    let out = dedup_lines(ls, false);
    assert forall|i: int| 0 <= i < out.len() implies proper_line(#[trigger] out[i]) && (i
        < out.len() - 1 ==> ends_line(out[i])) by {
        let j = choose|j: int|
            0 <= j < ls.len() && ls[j] == runs_of(ls)[i].text && (j == ls.len() - 1 ==> i
                == runs_of(ls).len() - 1);
        assert(out[i] == ls[j]);
    }
}

/// Collapsing a text is idempotent: running the output through again,
/// without counts, gives the same output.
pub proof fn lemma_uniq_idempotent(s: Seq<char>)
    ensures
        dedup_text(dedup_text(s, false), false) == dedup_text(s, false),
{
    let ls = lines_of(s);
    let out = dedup_lines(ls, false);
    lemma_lines_well_formed(s);
    lemma_rows_well_formed(ls);
    lemma_lines_of_concat(out);
    lemma_dedup_idempotent(ls);
}

/// `count` copies of `text`.
pub open spec fn copies(text: Seq<char>, count: nat) -> Seq<Seq<char>> {
    Seq::new(count, |i: int| text)
}

/// The lines that `runs` stand for: each run's line as often as the run is
/// long.
pub open spec fn expanded(runs: Seq<RunSpec>) -> Seq<Seq<char>>
    decreases runs.len(),
{
    if runs.len() == 0 {
        Seq::empty()
    } else {
        expanded(runs.drop_last()) + copies(runs.last().text, runs.last().count)
    }
}

/// Whether line `i` of `a` has the content of line `i` of `b`.
pub open spec fn same_content_at(a: Seq<Seq<char>>, b: Seq<Seq<char>>, i: int) -> bool {
    same_content(a[i], b[i])
}

/// One more line read adds one line to what the runs stand for: the line
/// of the run it joins, or itself where it starts a run.
pub proof fn lemma_expanded_step(ls: Seq<Seq<char>>)
    requires
        ls.len() > 0,
    ensures
        ({
            let before = runs_of(ls.drop_last());
            let kept = if before.len() > 0 && same_content(before.last().text, ls.last()) {
                before.last().text
            } else {
                ls.last()
            };
            &&& expanded(runs_of(ls)) == expanded(before).push(kept)
            &&& same_content(kept, ls.last())
        }),
{
    let line = ls.last();
    let before = runs_of(ls.drop_last());
    let after = runs_of(ls);
    if before.len() > 0 && same_content(before.last().text, line) {
        let text = before.last().text;
        let count = before.last().count;
        assert(after.drop_last() =~= before.drop_last());
        assert(copies(text, count + 1) =~= copies(text, count).push(text));
        assert(expanded(after) =~= expanded(before).push(text));
    } else {
        assert(after.drop_last() =~= before);
        assert(copies(line, 1) =~= seq![line]);
        assert(expanded(after) =~= expanded(before).push(line));
    }
}

/// The runs of `ls` stand for `ls` line by line: putting each run's line in
/// the place of the lines it collapsed gives as many lines as were read,
/// each with the content of the line that was read in its place.
pub proof fn lemma_runs_cover_lines(ls: Seq<Seq<char>>)
    ensures
        expanded(runs_of(ls)).len() == ls.len(),
        forall|i: int| 0 <= i < ls.len() ==> #[trigger] same_content_at(expanded(runs_of(ls)), ls, i),
    decreases ls.len(),
{
    if ls.len() > 0 {
        let front = ls.drop_last();
        lemma_runs_cover_lines(front);
        lemma_expanded_step(ls);
        let before = expanded(runs_of(front));
        let after = expanded(runs_of(ls));
        assert forall|i: int| 0 <= i < ls.len() implies #[trigger] same_content_at(after, ls, i) by {
            if i < front.len() {
                assert(same_content_at(before, front, i));
                assert(after[i] == before[i]);
                assert(front[i] == ls[i]);
            }
        }
    }
}

/// A run's line is, as it was read, the first of the lines that the run
/// collapsed: the line that follows those of all the runs before it.
pub proof fn lemma_run_starts(ls: Seq<Seq<char>>, k: int)
    requires
        0 <= k < runs_of(ls).len(),
    ensures
        0 <= expanded(runs_of(ls).take(k)).len() < ls.len(),
        ls[expanded(runs_of(ls).take(k)).len() as int] == runs_of(ls)[k].text,
    decreases ls.len(),
{
    let front = ls.drop_last();
    let before = runs_of(front);
    let after = runs_of(ls);
    let merged = before.len() > 0 && same_content(before.last().text, ls.last());
    if merged || k < after.len() - 1 {
        assert(after.take(k) =~= before.take(k));
        assert(after[k].text == before[k].text);
        lemma_run_starts(front, k);
        assert(front[expanded(before.take(k)).len() as int] == ls[expanded(before.take(k)).len() as int]);
    } else {
        assert(after.take(k) =~= before);
        lemma_runs_cover_lines(front);
    }
}

} // verus!
