//! The first lines, or the first bytes, of a source.

use vstd::prelude::*;
use vstd::slice::slice_subrange;
use vstd::string::StringExecFns;
use vstd::utf8::{decode_utf8, valid_utf8};
use crate::fmt::decimal;
use crate::lines::{concat, lines_of, split_lines};
use crate::text::{chars_of, texts};

verus! {

/// Which sources to show, and how much of each: a number of lines, or a
/// number of bytes when one is given.
#[derive(Debug)]
pub struct Config {
    pub files: Vec<String>,
    pub lines: usize,
    pub bytes: Option<usize>,
}

/// Whether `c` is one of the ten decimal digits.
pub open spec fn is_digit(c: char) -> bool {
    '0' <= c && c <= '9'
}

/// The value of the digit `c`.
pub open spec fn digit_value(c: char) -> nat {
    (c as nat - '0' as nat) as nat
}

/// The number that the digits `s` write in base ten; zero for no digits.
pub open spec fn number(s: Seq<char>) -> nat
    decreases s.len(),
{
    if s.len() == 0 {
        0
    } else {
        number(s.drop_last()) * 10 + digit_value(s.last())
    }
}

/// `s` without the plus sign that may lead it.
pub open spec fn unsigned(s: Seq<char>) -> Seq<char> {
    if s.len() > 0 && s[0] == '+' {
        s.drop_first()
    } else {
        s
    }
}

/// Whether `s` writes a number: one or more digits, after at most one plus
/// sign, and nothing else.
pub open spec fn is_numeral(s: Seq<char>) -> bool {
    &&& unsigned(s).len() > 0
    &&& forall|i: int| 0 <= i < unsigned(s).len() ==> is_digit(#[trigger] unsigned(s)[i])
}

/// Whether `s` writes a positive number that a `usize` can hold.
pub open spec fn is_positive_int(s: Seq<char>) -> bool {
    is_numeral(s) && 0 < number(unsigned(s)) <= usize::MAX
}

/// A number only grows as digits are added behind it.
pub proof fn lemma_number_grows(s: Seq<char>, n: int)
    requires
        0 <= n <= s.len(),
    ensures
        number(s.take(n)) <= number(s),
    decreases s.len(),
{
    if n == s.len() {
        assert(s.take(n) =~= s);
    } else {
        assert(s.drop_last().take(n) =~= s.take(n));
        lemma_number_grows(s.drop_last(), n);
        assert(number(s.drop_last()) <= number(s.drop_last()) * 10) by (nonlinear_arith);
    }
}

/// The decimal numeral of a number is a numeral, and it writes that number.
pub proof fn lemma_number_of_decimal(n: nat)
    ensures
        is_numeral(decimal(n)),
        unsigned(decimal(n)) == decimal(n),
        number(decimal(n)) == n,
    decreases n,
{
    let s = decimal(n);
    if n < 10 {
        assert(s.drop_last() =~= Seq::<char>::empty());
        assert(number(s.drop_last()) == 0);
    } else {
        lemma_number_of_decimal(n / 10);
        assert(s.drop_last() =~= decimal(n / 10));
        assert(s[0] == decimal(n / 10)[0]);
        assert forall|i: int| 0 <= i < s.len() implies is_digit(#[trigger] s[i]) by {
            if i < s.len() - 1 {
                assert(s[i] == unsigned(decimal(n / 10))[i]);
            }
        }
    }
}

/// Reads `val` as a positive count. Any text that is not a numeral, that
/// writes zero, or that writes a number too large for a `usize`, is handed
/// back as the error.
pub fn parse_positive_int(val: &str) -> (r: Result<usize, String>)
    ensures
        r is Ok <==> is_positive_int(val@),
        r matches Ok(n) ==> n == number(unsigned(val@)),
        r matches Err(e) ==> e@ == val@,
{
    let v = chars_of(val);
    let start: usize = if v.len() > 0 && v[0] == '+' {
        1
    } else {
        0
    };
    let ghost digits = unsigned(val@);
    proof {
        assert(digits =~= v@.skip(start as int));
    }
    if start == v.len() {
        return Err(String::from_str(val));
    }
    let mut acc: usize = 0;
    let mut i: usize = start;
    proof {
        assert(digits.take(0) =~= Seq::<char>::empty());
    }
    while i < v.len()
        invariant
            start <= i <= v.len(),
            v@ == val@,
            digits == v@.skip(start as int),
            digits == unsigned(val@),
            digits.len() > 0,
            acc == number(digits.take(i - start)),
            forall|k: int| 0 <= k < i - start ==> is_digit(#[trigger] digits[k]),
        decreases v.len() - i,
    {
        let c = v[i];
        proof {
            assert(digits[i - start] == c);
            let next = digits.take(i - start + 1);
            assert(next.drop_last() =~= digits.take(i - start));
            assert(next.last() == c);
            lemma_number_grows(digits, i - start + 1);
        }
        if !(c >= '0' && c <= '9') {
            return Err(String::from_str(val));
        }
        let d: usize = (c as u32 - '0' as u32) as usize;
        if acc > (usize::MAX - d) / 10 {
            return Err(String::from_str(val));
        }
        acc = acc * 10 + d;
        i = i + 1;
    }
    proof {
        assert(digits.take(digits.len() as int) =~= digits);
    }
    if acc == 0 {
        Err(String::from_str(val))
    } else {
        Ok(acc)
    }
}

/// The text that `String::from_utf8_lossy` makes of `bytes`, with a
/// replacement character wherever the bytes are not well-formed UTF-8.
pub uninterp spec fn lossy_text(bytes: Seq<u8>) -> Seq<char>;

/// `String::from_utf8_lossy`, as an owned string: the result is a function
/// of the bytes alone, and for well-formed UTF-8 it is the text that the
/// bytes encode. Trusted.
#[verifier::external_body]
fn decode_lossy(data: &[u8]) -> (out: String)
    ensures
        out@ == lossy_text(data@),
        valid_utf8(data@) ==> out@ == decode_utf8(data@),
{
    String::from_utf8_lossy(data).into_owned()
}

/// The smaller of `n` and the length `len`.
pub open spec fn capped(n: int, len: int) -> int {
    if n < len {
        n
    } else {
        len
    }
}

/// The first `n` bytes of `data`, or all of it when it is shorter.
pub open spec fn head_bytes(data: Seq<u8>, n: nat) -> Seq<u8> {
    data.take(capped(n as int, data.len() as int))
}

/// The first `n` lines of `text`, or all of it when it has fewer.
pub open spec fn head_lines(text: Seq<char>, n: nat) -> Seq<char> {
    concat(lines_of(text).take(capped(n as int, lines_of(text).len() as int)))
}

/// The banner that goes before a source when several are shown: the name
/// between arrows, after an empty line for every source but the first.
pub open spec fn banner(file_num: nat, name: Seq<char>) -> Seq<char> {
    let lead = if file_num > 0 {
        seq!['\n']
    } else {
        Seq::empty()
    };
    lead + seq!['=', '=', '=', '>', ' '] + name + seq![' ', '<', '=', '=']
}

/// The first `n` bytes of `data`, or all of it when it is shorter.
pub fn first_bytes(data: &[u8], n: usize) -> (out: &[u8])
    ensures
        out@ == head_bytes(data@, n as nat),
{
    let k = if n < data.len() {
        n
    } else {
        data.len()
    };
    slice_subrange(data, 0, k)
}

/// The first `n` bytes of `data` as text, with a replacement character
/// wherever they are not well-formed UTF-8.
pub fn show_bytes(data: &[u8], n: usize) -> (out: String)
    ensures
        out@ == lossy_text(head_bytes(data@, n as nat)),
        valid_utf8(head_bytes(data@, n as nat)) ==> out@ == decode_utf8(
            head_bytes(data@, n as nat),
        ),
{
    decode_lossy(first_bytes(data, n))
}

/// The first `n` lines of `text`, terminators included.
pub fn first_lines(text: &str, n: usize) -> (out: String)
    ensures
        out@ == head_lines(text@, n as nat),
{
    let lines = split_lines(text);
    let k = if n < lines.len() {
        n
    } else {
        lines.len()
    };
    let mut out = String::new();
    let mut i: usize = 0;
    proof {
        assert(texts(lines@).take(0) =~= Seq::<Seq<char>>::empty());
    }
    while i < k
        invariant
            i <= k <= lines.len(),
            out@ == concat(texts(lines@).take(i as int)),
        decreases k - i,
    {
        proof {
            let next = texts(lines@).take(i + 1);
            assert(next.drop_last() =~= texts(lines@).take(i as int));
            assert(next.last() == lines@[i as int]@);
        }
        out.append(lines[i].as_str());
        i = i + 1;
    }
    out
}

/// The banner for the source called `filename`, the `file_num`-th of
/// `num_files` counting from zero; none when a single source is shown.
pub fn format_banner(num_files: usize, file_num: usize, filename: &str) -> (out: Option<String>)
    ensures
        out is Some <==> num_files > 1,
        out matches Some(s) ==> s@ == banner(file_num as nat, filename@),
{
    if num_files > 1 {
        let mut s = String::new();
        if file_num > 0 {
            s.push('\n');
        }
        s.append("===> ");
        s.append(filename);
        s.append(" <==");
        proof {
            reveal_strlit("===> ");
            reveal_strlit(" <==");
            assert("===> "@ =~= seq!['=', '=', '=', '>', ' ']);
            assert(" <=="@ =~= seq![' ', '<', '=', '=']);
            assert(s@ =~= banner(file_num as nat, filename@));
        }
        Some(s)
    } else {
        None
    }
}

} // verus!
