//! Counting the lines, words, bytes and characters of a text, and laying
//! the counts out in rows.

use vstd::prelude::*;
use vstd::string::StringExecFns;
use vstd::utf8::{decode_utf8, encode_utf8, valid_utf8};
use crate::fmt::{decimal, lemma_right_align, push_right_aligned, right_align};
use crate::source::{is_stdin, is_stdin_token};
use crate::lines::{
    concat, ends_line, lemma_concat_lines, lemma_lines_of_concat, lemma_lines_well_formed, lines_of,
    proper_line, well_formed,
};
use crate::text::is_white_space;

verus! {

/// The error value of `core::str::from_utf8`; carried through, never read.
#[verifier::external_type_specification]
#[verifier::external_body]
pub struct ExUtf8Error(core::str::Utf8Error);

/// `core::str::from_utf8` succeeds exactly on well-formed UTF-8 and then
/// returns the characters that the bytes encode. Trusted.
pub assume_specification[ core::str::from_utf8 ](v: &[u8]) -> (r: Result<
    &str,
    core::str::Utf8Error,
>)
    ensures
        r is Ok <==> valid_utf8(v@),
        r matches Ok(s) ==> s@ == decode_utf8(v@),
;

/// Which sources to count and which columns to show.
#[derive(Debug)]
pub struct Config {
    pub files: Vec<String>,
    pub lines: bool,
    pub words: bool,
    pub bytes: bool,
    pub chars: bool,
}

impl Default for Config {
    /// Standard input alone, with all four columns shown.
    fn default() -> (config: Config)
        ensures
            config.files@.len() == 1,
            is_stdin_token(config.files@[0]@),
            config.lines && config.words && config.bytes && config.chars,
    {
        let mut files: Vec<String> = Vec::new();
        files.push(String::from_str("-"));
        proof {
            reveal_strlit("-");
            assert("-"@ =~= seq!['-']);
        }
        Config { files, lines: true, words: true, bytes: true, chars: true }
    }
}

/// The four counts of one source, or their totals over several.
#[derive(Debug, Clone, Copy, PartialEq, Eq, Structural)]
pub struct FileInfo {
    pub num_lines: usize,
    pub num_words: usize,
    pub num_bytes: usize,
    pub num_chars: usize,
}

/// Why a source could not be read as text.
#[derive(Debug, Clone, Copy, PartialEq, Eq, Structural)]
pub enum ReadError {
    /// The bytes are not well-formed UTF-8.
    InvalidUtf8,
}

/// Four counts as mathematical numbers.
pub struct Counts {
    pub lines: nat,
    pub words: nat,
    pub bytes: nat,
    pub chars: nat,
}

impl View for FileInfo {
    type V = Counts;

    open spec fn view(&self) -> Counts {
        Counts {
            lines: self.num_lines as nat,
            words: self.num_words as nat,
            bytes: self.num_bytes as nat,
            chars: self.num_chars as nat,
        }
    }
}

/// Whether a word begins at position `i` of `line`: a character that is not
/// white space, at the start of the line or right after white space.
pub open spec fn starts_word(line: Seq<char>, i: int) -> bool {
    !is_white_space(line[i]) && (i == 0 || is_white_space(line[i - 1]))
}

/// The number of words in `line`: maximal stretches free of white space.
pub open spec fn word_count(line: Seq<char>) -> nat
    decreases line.len(),
{
    if line.len() == 0 {
        0
    } else {
        word_count(line.drop_last()) + if starts_word(line, line.len() - 1) {
            1nat
        } else {
            0nat
        }
    }
}

/// The words of all of `ls`, counted line by line.
pub open spec fn words_in(ls: Seq<Seq<char>>) -> nat
    decreases ls.len(),
{
    if ls.len() == 0 {
        0
    } else {
        words_in(ls.drop_last()) + word_count(ls.last())
    }
}

/// The bytes of all of `ls` in UTF-8, counted line by line.
pub open spec fn bytes_in(ls: Seq<Seq<char>>) -> nat
    decreases ls.len(),
{
    if ls.len() == 0 {
        0
    } else {
        bytes_in(ls.drop_last()) + encode_utf8(ls.last()).len()
    }
}

/// The characters of all of `ls`, counted line by line.
pub open spec fn chars_in(ls: Seq<Seq<char>>) -> nat
    decreases ls.len(),
{
    if ls.len() == 0 {
        0
    } else {
        chars_in(ls.drop_last()) + ls.last().len()
    }
}

/// The counts of a sequence of lines: how many there are, and their words,
/// bytes and characters summed up.
pub open spec fn counts_of_lines(ls: Seq<Seq<char>>) -> Counts {
    Counts { lines: ls.len(), words: words_in(ls), bytes: bytes_in(ls), chars: chars_in(ls) }
}

/// The counts of a text are the counts of its lines.
pub open spec fn counts_of(text: Seq<char>) -> Counts {
    counts_of_lines(lines_of(text))
}

/// The UTF-8 encoding of a text is as long as those of its two halves
/// together.
pub proof fn lemma_utf8_len_concat(a: Seq<char>, b: Seq<char>)
    ensures
        encode_utf8(a + b).len() == encode_utf8(a).len() + encode_utf8(b).len(),
    decreases a.len(),
{
    if a.len() == 0 {
        assert(a + b =~= b);
    } else {
        assert((a + b).drop_first() =~= a.drop_first() + b);
        assert((a + b)[0] == a[0]);
        lemma_utf8_len_concat(a.drop_first(), b);
    }
}

/// Every character takes between one and four bytes.
pub proof fn lemma_utf8_len_bounds(s: Seq<char>)
    ensures
        s.len() <= encode_utf8(s).len() <= 4 * s.len(),
    decreases s.len(),
{
    if s.len() > 0 {
        lemma_utf8_len_bounds(s.drop_first());
    }
}

/// Bytes and characters may be counted line by line or over the whole text.
pub proof fn lemma_sizes_of_concat(ls: Seq<Seq<char>>)
    ensures
        bytes_in(ls) == encode_utf8(concat(ls)).len(),
        chars_in(ls) == concat(ls).len(),
    decreases ls.len(),
{
    if ls.len() > 0 {
        lemma_sizes_of_concat(ls.drop_last());
        lemma_utf8_len_concat(concat(ls.drop_last()), ls.last());
    }
}

/// The bytes and characters of the lines of a text are those of the text.
pub proof fn lemma_concat_lines_sizes(text: Seq<char>)
    ensures
        bytes_in(lines_of(text)) == encode_utf8(text).len(),
        chars_in(lines_of(text)) == text.len(),
{
    lemma_concat_lines(text);
    lemma_sizes_of_concat(lines_of(text));
}

/// A text made of well-formed lines has exactly those lines' counts: as
/// many lines as were joined, whether or not the last one is terminated,
/// and the bytes, characters and words of each line added up.
pub proof fn lemma_counts_of_joined_lines(ls: Seq<Seq<char>>)
    requires
        well_formed(ls),
    ensures
        counts_of(concat(ls)) == counts_of_lines(ls),
        counts_of(concat(ls)).lines == ls.len(),
        counts_of(concat(ls)).bytes == bytes_in(ls),
        counts_of(concat(ls)).bytes == encode_utf8(concat(ls)).len(),
        counts_of(concat(ls)).chars == concat(ls).len(),
{
    lemma_lines_of_concat(ls);
    lemma_sizes_of_concat(ls);
}

/// One more character at the end of a text either lengthens its last line,
/// when that line is still open, or starts a new line.
pub proof fn lemma_counts_step(p: Seq<char>, c: char)
    ensures
        ({
            let before = lines_of(p);
            let after = lines_of(p.push(c));
            if before.len() > 0 && !ends_line(before.last()) {
                &&& after.len() == before.len()
                &&& after.last() == before.last().push(c)
                &&& words_in(after) == words_in(before) + if !is_white_space(c) && is_white_space(
                    before.last().last(),
                ) {
                    1nat
                } else {
                    0nat
                }
            } else {
                &&& after.len() == before.len() + 1
                &&& after.last() == seq![c]
                &&& words_in(after) == words_in(before) + if !is_white_space(c) {
                    1nat
                } else {
                    0nat
                }
            }
        }),
{
    let q = p.push(c);
    assert(q.drop_last() =~= p);
    let before = lines_of(p);
    let after = lines_of(q);
    if before.len() > 0 && !ends_line(before.last()) {
        let line = before.last().push(c);
        lemma_lines_well_formed(p);
        assert(proper_line(before.last()));
        assert(after =~= before.drop_last().push(line));
        assert(after.drop_last() =~= before.drop_last());
        assert(line.drop_last() =~= before.last());
        assert(line[line.len() - 2] == before.last().last());
        assert(word_count(line) == word_count(before.last()) + if starts_word(
            line,
            line.len() - 1,
        ) {
            1nat
        } else {
            0nat
        });
    } else {
        let line = seq![c];
        assert(after =~= before.push(line));
        assert(after.drop_last() =~= before);
        assert(line.drop_last() =~= Seq::<char>::empty());
        assert(word_count(line.drop_last()) == 0);
        assert(word_count(line) == if starts_word(line, 0) {
            1nat
        } else {
            0nat
        });
    }
}

/// Counts the lines, words, bytes and characters of `text`.
pub fn count_text(text: &str) -> (info: FileInfo)
    ensures
        info@ == counts_of(text@),
        info.num_bytes == encode_utf8(text@).len(),
        info.num_chars == text@.len(),
{
    broadcast use vstd::string::group_string_axioms;

    let num_bytes = text.as_bytes().len();
    let mut num_lines: usize = 0;
    let mut num_words: usize = 0;
    let mut num_chars: usize = 0;
    // Whether the last line read so far still lacks its line feed.
    let mut open = false;
    // Whether a character that is not white space would start a word here.
    let mut gap = true;
    proof {
        lemma_utf8_len_bounds(text@);
        assert(text@.take(0) =~= Seq::<char>::empty());
    }
    for c in it: text.chars()
        invariant
            it.seq() == text@,
            text@.len() <= usize::MAX,
            num_chars == it.index(),
            num_lines <= it.index(),
            num_words <= it.index(),
            num_lines == lines_of(text@.take(it.index())).len(),
            num_words == words_in(lines_of(text@.take(it.index()))),
            open <==> num_lines > 0 && !ends_line(lines_of(text@.take(it.index())).last()),
            gap <==> !open || is_white_space(lines_of(text@.take(it.index())).last().last()),
    {
        proof {
            let p = text@.take(it.index());
            assert(p.push(c) =~= text@.take(it.index() + 1));
            lemma_counts_step(p, c);
        }
        if !open {
            num_lines = num_lines + 1;
        }
        let blank = c.is_whitespace();
        if gap && !blank {
            num_words = num_words + 1;
        }
        num_chars = num_chars + 1;
        open = c != '\n';
        gap = blank || !open;
    }
    proof {
        assert(text@.take(text@.len() as int) =~= text@);
        lemma_concat_lines_sizes(text@);
    }
    FileInfo { num_lines, num_words, num_bytes, num_chars }
}

/// Counts the lines, words, bytes and characters of a source given as raw
/// bytes. A source that is not well-formed UTF-8 cannot be read as text and
/// is refused.
pub fn count(data: &[u8]) -> (r: Result<FileInfo, ReadError>)
    ensures
        r is Ok <==> valid_utf8(data@),
        r matches Ok(info) ==> info@ == counts_of(decode_utf8(data@)) && info.num_bytes
            == data@.len(),
        r matches Err(e) ==> e == ReadError::InvalidUtf8,
{
    match core::str::from_utf8(data) {
        Ok(text) => {
            proof {
                vstd::utf8::decode_utf8_encode_utf8(data@);
            }
            Ok(count_text(text))
        },
        Err(_) => Err(ReadError::InvalidUtf8),
    }
}

/// One column of a row: the numeral of `value`, right-aligned in eight
/// characters, or nothing at all when the column is switched off.
pub open spec fn field(value: nat, show: bool) -> Seq<char> {
    if show {
        right_align(decimal(value), 8)
    } else {
        Seq::empty()
    }
}

/// The columns of a row, in the order lines, words, bytes, characters, with
/// nothing between them but their own padding.
pub open spec fn columns(c: Counts, config: &Config) -> Seq<char> {
    field(c.lines, config.lines) + field(c.words, config.words) + field(c.bytes, config.bytes)
        + field(c.chars, config.chars)
}

/// What follows the columns: a blank and the source's name, or nothing for
/// standard input.
pub open spec fn label(name: Seq<char>) -> Seq<char> {
    if is_stdin_token(name) {
        Seq::empty()
    } else {
        seq![' '] + name
    }
}

/// The row of one source.
pub open spec fn row(c: Counts, config: &Config, name: Seq<char>) -> Seq<char> {
    columns(c, config) + label(name)
}

/// The label of the totals row.
pub open spec fn total_label() -> Seq<char> {
    seq![' ', 't', 'o', 't', 'a', 'l']
}

/// The totals row.
pub open spec fn total_row(c: Counts, config: &Config) -> Seq<char> {
    columns(c, config) + total_label()
}

/// A hidden column is empty. A shown one is at least eight characters wide,
/// ends with the numeral of its value, and is blank before it.
pub proof fn lemma_field(value: nat, show: bool)
    ensures
        !show ==> field(value, show) == Seq::<char>::empty(),
        show ==> field(value, show).len() >= 8,
        show ==> field(value, show).len() >= decimal(value).len(),
        show ==> field(value, show).skip(field(value, show).len() - decimal(value).len())
            == decimal(value),
        show ==> forall|i: int|
            0 <= i < field(value, show).len() - decimal(value).len() ==> field(value, show)[i]
                == ' ',
{
    if show {
        lemma_right_align(decimal(value), 8);
    }
}

/// Renders one column: see [`field`].
pub fn format_field(value: usize, show: bool) -> (out: String)
    ensures
        out@ == field(value as nat, show),
{
    let mut out = String::new();
    if show {
        push_right_aligned(&mut out, value as u64, 8);
        proof {
            assert(out@ =~= field(value as nat, show));
        }
    }
    out
}

/// Appends the shown columns of `info` to `out`.
fn push_columns(out: &mut String, info: &FileInfo, config: &Config)
    ensures
        final(out)@ == old(out)@ + columns(info@, config),
{
    let ghost start = out@;
    out.append(format_field(info.num_lines, config.lines).as_str());
    out.append(format_field(info.num_words, config.words).as_str());
    out.append(format_field(info.num_bytes, config.bytes).as_str());
    out.append(format_field(info.num_chars, config.chars).as_str());
    proof {
        assert(out@ =~= start + columns(info@, config));
    }
}

/// The row of the source called `filename`: its shown columns, then a blank
/// and the name unless the source is standard input.
pub fn format_row(info: &FileInfo, config: &Config, filename: &str) -> (out: String)
    ensures
        out@ == row(info@, config, filename@),
{
    let mut out = String::new();
    push_columns(&mut out, info, config);
    if !is_stdin(filename) {
        out.push(' ');
        out.append(filename);
    }
    proof {
        assert(out@ =~= row(info@, config, filename@));
    }
    out
}

/// The totals row, owed exactly when more than one source was asked for.
pub fn format_total(total: &FileInfo, config: &Config) -> (out: Option<String>)
    ensures
        out is Some <==> config.files.len() > 1,
        out matches Some(s) ==> s@ == total_row(total@, config),
{
    if config.files.len() > 1 {
        let mut s = String::new();
        push_columns(&mut s, total, config);
        s.append(" total");
        proof {
            reveal_strlit(" total");
            assert(" total"@ =~= total_label());
            assert(s@ =~= total_row(total@, config));
        }
        Some(s)
    } else {
        None
    }
}

/// Counts added column by column.
pub open spec fn sum(a: Counts, b: Counts) -> Counts {
    Counts {
        lines: a.lines + b.lines,
        words: a.words + b.words,
        bytes: a.bytes + b.bytes,
        chars: a.chars + b.chars,
    }
}

/// No counts at all: what an empty source has.
pub open spec fn no_counts() -> Counts {
    Counts { lines: 0, words: 0, bytes: 0, chars: 0 }
}

/// Whether each of the four counts can be held in a `usize`.
pub open spec fn fits(c: Counts) -> bool {
    &&& c.lines <= usize::MAX
    &&& c.words <= usize::MAX
    &&& c.bytes <= usize::MAX
    &&& c.chars <= usize::MAX
}

/// The totals of `infos`: all of them added column by column.
pub open spec fn total_of(infos: Seq<FileInfo>) -> Counts
    decreases infos.len(),
{
    if infos.len() == 0 {
        no_counts()
    } else {
        sum(total_of(infos.drop_last()), infos.last()@)
    }
}

/// Totals only grow as more sources are added.
pub proof fn lemma_total_grows(infos: Seq<FileInfo>, n: int)
    requires
        0 <= n <= infos.len(),
    ensures
        total_of(infos.take(n)).lines <= total_of(infos).lines,
        total_of(infos.take(n)).words <= total_of(infos).words,
        total_of(infos.take(n)).bytes <= total_of(infos).bytes,
        total_of(infos.take(n)).chars <= total_of(infos).chars,
    decreases infos.len(),
{
    if n == infos.len() {
        assert(infos.take(n) =~= infos);
    } else {
        assert(infos.drop_last().take(n) =~= infos.take(n));
        lemma_total_grows(infos.drop_last(), n);
    }
}

/// An empty text has no lines, words, bytes or characters.
pub proof fn lemma_counts_of_empty()
    ensures
        counts_of(Seq::<char>::empty()) == no_counts(),
{
}

/// Counts never shrink as one more line is taken in.
pub proof fn lemma_counts_grow_by_line(ls: Seq<Seq<char>>, line: Seq<char>)
    ensures
        counts_of_lines(ls.push(line)).lines == counts_of_lines(ls).lines + 1,
        counts_of_lines(ls.push(line)).words == counts_of_lines(ls).words + word_count(line),
        counts_of_lines(ls.push(line)).bytes == counts_of_lines(ls).bytes + encode_utf8(line).len(),
        counts_of_lines(ls.push(line)).chars == counts_of_lines(ls).chars + line.len(),
{
    assert(ls.push(line).drop_last() =~= ls);
}

/// Counts never shrink as a text grows by one character.
pub proof fn lemma_counts_grow(text: Seq<char>, c: char)
    ensures
        counts_of(text).lines <= counts_of(text.push(c)).lines,
        counts_of(text).words <= counts_of(text.push(c)).words,
        counts_of(text).bytes <= counts_of(text.push(c)).bytes,
        counts_of(text).chars <= counts_of(text.push(c)).chars,
{
    lemma_counts_step(text, c);
    lemma_concat_lines_sizes(text);
    lemma_concat_lines_sizes(text.push(c));
    lemma_utf8_len_concat(text, seq![c]);
    assert(text + seq![c] =~= text.push(c));
}

impl FileInfo {
    /// The counts of an empty source, and the start of every total.
    pub fn zero() -> (info: FileInfo)
        ensures
            info@ == no_counts(),
    {
        FileInfo { num_lines: 0, num_words: 0, num_bytes: 0, num_chars: 0 }
    }

    /// Adds `other` to these counts, column by column; `None` when one of
    /// the sums is too large for a `usize`.
    pub fn plus(&self, other: &FileInfo) -> (r: Option<FileInfo>)
        ensures
            r is Some <==> fits(sum(self@, other@)),
            r matches Some(t) ==> t@ == sum(self@, other@),
    {
        if self.num_lines > usize::MAX - other.num_lines || self.num_words > usize::MAX
            - other.num_words || self.num_bytes > usize::MAX - other.num_bytes || self.num_chars
            > usize::MAX - other.num_chars {
            None
        } else {
            Some(
                FileInfo {
                    num_lines: self.num_lines + other.num_lines,
                    num_words: self.num_words + other.num_words,
                    num_bytes: self.num_bytes + other.num_bytes,
                    num_chars: self.num_chars + other.num_chars,
                },
            )
        }
    }
}

/// The totals of all of `infos`; `None` when a total is too large for a
/// `usize`.
pub fn total(infos: &Vec<FileInfo>) -> (r: Option<FileInfo>)
    ensures
        r is Some <==> fits(total_of(infos@)),
        r matches Some(t) ==> t@ == total_of(infos@),
{
    let mut acc = FileInfo::zero();
    let mut i: usize = 0;
    proof {
        assert(infos@.take(0) =~= Seq::<FileInfo>::empty());
    }
    while i < infos.len()
        invariant
            i <= infos.len(),
            acc@ == total_of(infos@.take(i as int)),
        decreases infos.len() - i,
    {
        proof {
            let next = infos@.take(i + 1);
            assert(next.drop_last() =~= infos@.take(i as int));
            assert(next.last() == infos@[i as int]);
            lemma_total_grows(infos@, i + 1);
        }
        match acc.plus(&infos[i]) {
            Some(t) => {
                acc = t;
            },
            None => {
                return None;
            },
        }
        i = i + 1;
    }
    proof {
        assert(infos@.take(infos.len() as int) =~= infos@);
    }
    Some(acc)
}

} // verus!
