//! Characters and strings: the whitespace predicate, trailing-whitespace
//! trimming, and the plumbing between `str` / `String` and sequences of
//! characters.

use vstd::prelude::*;

verus! {

/// Whether `c` is white space in the sense of `char::is_whitespace`.
///
/// The set is fixed by the Unicode character database and is not spelled
/// out here; the library only relies on it being a property of the
/// character alone.
pub uninterp spec fn is_white_space(c: char) -> bool;

/// `char::is_whitespace` decides the predicate [`is_white_space`]. Trusted:
/// the standard library's table is not inspected.
pub assume_specification[ char::is_whitespace ](c: char) -> (b: bool)
    ensures
        b == is_white_space(c),
;

/// `String::push` appends exactly one character and leaves the rest of the
/// string as it was. Trusted.
pub assume_specification[ String::push ](s: &mut String, ch: char)
    ensures
        final(s)@ == old(s)@.push(ch),
;

/// The views of a sequence of strings, one per string.
pub open spec fn texts(v: Seq<String>) -> Seq<Seq<char>> {
    Seq::new(v.len(), |i: int| v[i]@)
}

/// `s` without its longest suffix of white space.
pub open spec fn trim_end(s: Seq<char>) -> Seq<char>
    decreases s.len(),
{
    if s.len() > 0 && is_white_space(s.last()) {
        trim_end(s.drop_last())
    } else {
        s
    }
}

/// Two lines belong to the same run when they agree once trailing white
/// space, line terminators included, is set aside.
pub open spec fn same_content(a: Seq<char>, b: Seq<char>) -> bool {
    trim_end(a) == trim_end(b)
}

/// Trimming yields a prefix that does not end in white space, and everything
/// after that prefix is white space.
pub proof fn lemma_trim_end(s: Seq<char>)
    ensures
        trim_end(s).len() <= s.len(),
        trim_end(s) == s.take(trim_end(s).len() as int),
        trim_end(s).len() > 0 ==> !is_white_space(trim_end(s).last()),
        forall|i: int| trim_end(s).len() <= i < s.len() ==> is_white_space(#[trigger] s[i]),
    decreases s.len(),
{
    if s.len() > 0 && is_white_space(s.last()) {
        let t = s.drop_last();
        lemma_trim_end(t);
        let n = trim_end(t).len() as int;
        assert(t.take(n) =~= s.take(n));
        assert forall|i: int| trim_end(s).len() <= i < s.len() implies is_white_space(
            #[trigger] s[i],
        ) by {
            if i < t.len() {
                assert(t[i] == s[i]);
            }
        }
    } else {
        assert(s.take(s.len() as int) =~= s);
    }
}

/// The characters of `s`, in order, as a vector.
pub fn chars_of(s: &str) -> (v: Vec<char>)
    ensures
        v@ == s@,
{
    broadcast use vstd::string::group_string_axioms;

    let mut v: Vec<char> = Vec::new();
    for c in it: s.chars()
        invariant
            it.seq() == s@,
            v@ == it.seq().take(it.index()),
    {
        v.push(c);
    }
    v
}

/// The length of `v` once trailing white space is dropped.
pub fn trimmed_len(v: &Vec<char>) -> (n: usize)
    ensures
        n == trim_end(v@).len(),
{
    let mut n: usize = v.len();
    proof {
        assert(v@.take(n as int) =~= v@);
    }
    while n > 0 && v[n - 1].is_whitespace()
        invariant
            n <= v.len(),
            trim_end(v@) == trim_end(v@.take(n as int)),
        decreases n,
    {
        proof {
            let t = v@.take(n as int);
            assert(t.drop_last() =~= v@.take(n - 1));
        }
        n = n - 1;
    }
    n
}

/// Whether `a` and `b` are equal up to trailing white space.
pub fn same_line(a: &str, b: &str) -> (r: bool)
    ensures
        r == same_content(a@, b@),
{
    let va = chars_of(a);
    let vb = chars_of(b);
    let na = trimmed_len(&va);
    let nb = trimmed_len(&vb);
    proof {
        lemma_trim_end(va@);
        lemma_trim_end(vb@);
    }
    if na != nb {
        return false;
    }
    let mut i: usize = 0;
    while i < na
        invariant
            i <= na,
            na == nb,
            na <= va.len(),
            nb <= vb.len(),
            va@ == a@,
            vb@ == b@,
            trim_end(va@) == va@.take(na as int),
            trim_end(vb@) == vb@.take(nb as int),
            va@.take(i as int) == vb@.take(i as int),
        decreases na - i,
    {
        if va[i] != vb[i] {
            proof {
                assert(va@.take(na as int)[i as int] != vb@.take(nb as int)[i as int]);
            }
            return false;
        }
        proof {
            assert(va@.take(i + 1) =~= va@.take(i as int).push(va@[i as int]));
            assert(vb@.take(i + 1) =~= vb@.take(i as int).push(vb@[i as int]));
        }
        i = i + 1;
    }
    true
}

} // verus!
