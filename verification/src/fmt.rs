//! Decimal numerals and right-aligned fields.

use vstd::prelude::*;

verus! {

/// The character that writes the digit `d`.
pub open spec fn digit_char(d: int) -> char {
    if d == 0 {
        '0'
    } else if d == 1 {
        '1'
    } else if d == 2 {
        '2'
    } else if d == 3 {
        '3'
    } else if d == 4 {
        '4'
    } else if d == 5 {
        '5'
    } else if d == 6 {
        '6'
    } else if d == 7 {
        '7'
    } else if d == 8 {
        '8'
    } else {
        '9'
    }
}

/// The decimal numeral of `n`: no sign, no leading zero, `"0"` for zero.
pub open spec fn decimal(n: nat) -> Seq<char>
    decreases n,
{
    if n < 10 {
        seq![digit_char(n as int)]
    } else {
        decimal(n / 10).push(digit_char((n % 10) as int))
    }
}

/// `width` blanks.
pub open spec fn blanks(width: nat) -> Seq<char> {
    Seq::new(width, |i: int| ' ')
}

/// `s` pushed to the right edge of a field of `width` characters. A text
/// wider than the field is left as it is.
pub open spec fn right_align(s: Seq<char>, width: nat) -> Seq<char> {
    if s.len() >= width {
        s
    } else {
        blanks((width - s.len()) as nat) + s
    }
}

/// A right-aligned field is at least as wide as asked for, ends with the
/// text it was made from, and holds only blanks before it.
pub proof fn lemma_right_align(s: Seq<char>, width: nat)
    ensures
        right_align(s, width).len() == if s.len() >= width {
            s.len()
        } else {
            width
        },
        right_align(s, width).skip(right_align(s, width).len() - s.len()) == s,
        forall|i: int|
            0 <= i < right_align(s, width).len() - s.len() ==> right_align(s, width)[i] == ' ',
{
    let r = right_align(s, width);
    assert(r.skip(r.len() - s.len()) =~= s);
}

/// A numeral has between one and twenty digits for a 64-bit number.
pub proof fn lemma_decimal_len(n: nat)
    ensures
        decimal(n).len() >= 1,
        n <= u64::MAX ==> decimal(n).len() <= 20,
        n >= 10 ==> decimal(n).len() == decimal(n / 10).len() + 1,
{
    reveal_with_fuel(decimal, 21);
}

/// The character for the digit `d`.
pub fn digit(d: u8) -> (c: char)
    requires
        d < 10,
    ensures
        c == digit_char(d as int),
{
    match d {
        0 => '0',
        1 => '1',
        2 => '2',
        3 => '3',
        4 => '4',
        5 => '5',
        6 => '6',
        7 => '7',
        8 => '8',
        _ => '9',
    }
}

/// The number of digits in the numeral of `value`.
pub fn decimal_len(value: u64) -> (n: usize)
    ensures
        n == decimal(value as nat).len(),
        1 <= n <= 20,
{
    let mut n: usize = 1;
    let mut v: u64 = value;
    proof {
        lemma_decimal_len(value as nat);
    }
    while v >= 10
        invariant
            1 <= n,
            n + decimal(v as nat).len() == decimal(value as nat).len() + 1,
            decimal(value as nat).len() <= 20,
        decreases v,
    {
        proof {
            lemma_decimal_len(v as nat);
            lemma_decimal_len((v / 10) as nat);
        }
        v = v / 10;
        n = n + 1;
    }
    n
}

/// Appends the numeral of `value` to `out`.
pub fn push_decimal(out: &mut String, value: u64)
    ensures
        final(out)@ == old(out)@ + decimal(value as nat),
    decreases value,
{
    if value >= 10 {
        push_decimal(out, value / 10);
    }
    out.push(digit((value % 10) as u8));
    proof {
        assert(out@ =~= old(out)@ + decimal(value as nat));
    }
}

/// Appends `value` to `out`, right-aligned in a field of `width` characters.
pub fn push_right_aligned(out: &mut String, value: u64, width: usize)
    ensures
        final(out)@ == old(out)@ + right_align(decimal(value as nat), width as nat),
{
    let len = decimal_len(value);
    let ghost start = out@;
    if len < width {
        let gap = width - len;
        let mut pad: usize = 0;
        while pad < gap
            invariant
                pad <= gap,
                out@ == start + blanks(pad as nat),
            decreases gap - pad,
        {
            out.push(' ');
            pad = pad + 1;
            proof {
                assert(out@ =~= start + blanks(pad as nat));
            }
        }
    } else {
        proof {
            assert(out@ =~= start + blanks(0));
        }
    }
    push_decimal(out, value);
    proof {
        assert(out@ =~= start + right_align(decimal(value as nat), width as nat));
    }
}

} // verus!
