//! Text as a sequence of characters: conversion to and from strings,
//! substring search and trimming of white space.

use vstd::prelude::*;
use vstd::slice::slice_subrange;

verus! {

/// `String::push` appends the character to the end of the string.
pub assume_specification[ String::push ](s: &mut String, ch: char)
    ensures
        final(s)@ == old(s)@.push(ch),
;

/// The characters of `s`, in order.
pub fn chars_of(s: &str) -> (out: Vec<char>)
    ensures
        out@ == s@,
{
    let mut out: Vec<char> = Vec::new();
    for c in it: s.chars()
        invariant
            it.seq() == s@,
            out@ == it.seq().take(it.index@),
    {
        out.push(c);
    }
    out
}

/// The string made of the characters of `chars`, in order.
pub fn string_of(chars: &[char]) -> (out: String)
    ensures
        out@ == chars@,
{
    let mut out = String::new();
    let mut i: usize = 0;
    while i < chars.len()
        invariant
            i <= chars.len(),
            out@ == chars@.take(i as int),
        decreases chars.len() - i,
    {
        out.push(chars[i]);
        i += 1;
    }
    out
}

/// `pat` stands in `s` at position `i`.
pub open spec fn occurs_at(s: Seq<char>, pat: Seq<char>, i: int) -> bool {
    &&& 0 <= i
    &&& i + pat.len() <= s.len()
    &&& s.subrange(i, i + pat.len()) == pat
}

/// `pat` stands in `s` at position `i` and at no position before it.
pub open spec fn first_at(s: Seq<char>, pat: Seq<char>, i: int) -> bool {
    &&& occurs_at(s, pat, i)
    &&& forall|j: int| 0 <= j < i ==> !occurs_at(s, pat, j)
}

/// The position of the first occurrence of `pat` in `s`, if there is one.
pub open spec fn index_of(s: Seq<char>, pat: Seq<char>) -> Option<int> {
    if exists|i: int| first_at(s, pat, i) {
        Some(choose|i: int| first_at(s, pat, i))
    } else {
        None
    }
}

/// A first occurrence is what `index_of` gives.
pub proof fn lemma_index_of_first(s: Seq<char>, pat: Seq<char>, i: int)
    requires
        first_at(s, pat, i),
    ensures
        index_of(s, pat) == Some(i),
{
    let c = choose|c: int| first_at(s, pat, c);
    assert(first_at(s, pat, c));
    if c < i {
        assert(occurs_at(s, pat, c));
    } else if i < c {
        assert(occurs_at(s, pat, i));
    }
}

/// Where `pat` occurs in `s`, it occurs somewhere first.
pub proof fn lemma_first_exists(s: Seq<char>, pat: Seq<char>, i: int)
    requires
        occurs_at(s, pat, i),
    ensures
        exists|k: int| 0 <= k <= i && first_at(s, pat, k),
    decreases i,
{
    if exists|j: int| 0 <= j < i && occurs_at(s, pat, j) {
        let j = choose|j: int| 0 <= j < i && occurs_at(s, pat, j);
        lemma_first_exists(s, pat, j);
    } else {
        assert(first_at(s, pat, i));
    }
}

/// `index_of` gives a first occurrence, and gives none only where `pat`
/// occurs nowhere in `s`.
pub proof fn lemma_index_of(s: Seq<char>, pat: Seq<char>)
    ensures
        match index_of(s, pat) {
            Some(i) => first_at(s, pat, i),
            None => forall|j: int| !occurs_at(s, pat, j),
        },
{
    if index_of(s, pat) is None {
        assert forall|j: int| !occurs_at(s, pat, j) by {
            if occurs_at(s, pat, j) {
                lemma_first_exists(s, pat, j);
            }
        }
    }
}

/// Every `a` in `s` is followed, within `s`, by a character other than `b`.
pub open spec fn guarded(s: Seq<char>, a: char, b: char) -> bool {
    forall|j: int| 0 <= j < s.len() && #[trigger] s[j] == a ==> j + 1 < s.len() && s[j + 1] != b
}

/// `c` does not stand in `s`.
pub open spec fn free_of(s: Seq<char>, c: char) -> bool {
    forall|j: int| 0 <= j < s.len() ==> s[j] != c
}

/// Where `pat` stands, its characters stand one by one.
pub proof fn lemma_occurs_at_chars(s: Seq<char>, pat: Seq<char>, i: int)
    requires
        occurs_at(s, pat, i),
    ensures
        forall|k: int| 0 <= k < pat.len() ==> s[i + k] == pat[k],
{
    assert forall|k: int| 0 <= k < pat.len() implies s[i + k] == pat[k] by {
        assert(s.subrange(i, i + pat.len())[k] == pat[k]);
    }
}

/// A text free of `a` is guarded against whatever follows an `a`.
pub proof fn lemma_free_is_guarded(s: Seq<char>, a: char, b: char)
    requires
        free_of(s, a),
    ensures
        guarded(s, a, b),
{
}

/// Two guarded texts, one after the other, are guarded.
pub proof fn lemma_guarded_concat(x: Seq<char>, y: Seq<char>, a: char, b: char)
    requires
        guarded(x, a, b),
        guarded(y, a, b),
    ensures
        guarded(x + y, a, b),
{
    assert forall|j: int| 0 <= j < (x + y).len() && #[trigger] (x + y)[j] == a implies j + 1 < (x
        + y).len()
        && (x + y)[j + 1] != b by {
        if j < x.len() {
            assert(x[j] == a);
        } else {
            assert(y[j - x.len()] == a);
            assert((x + y)[j + 1] == y[j + 1 - x.len()]);
        }
    }
}

/// No occurrence of `pat` begins inside a text that is guarded against its
/// first two characters, whatever follows the text.
pub proof fn lemma_none_begins_in_guarded(x: Seq<char>, y: Seq<char>, pat: Seq<char>)
    requires
        pat.len() >= 2,
        guarded(x, pat[0], pat[1]),
    ensures
        forall|j: int| 0 <= j < x.len() ==> !occurs_at(x + y, pat, j),
{
    assert forall|j: int| 0 <= j < x.len() implies !occurs_at(x + y, pat, j) by {
        if occurs_at(x + y, pat, j) {
            lemma_occurs_at_chars(x + y, pat, j);
            assert((x + y)[j + 0] == pat[0]);
            assert(x[j] == pat[0]);
            assert((x + y)[j + 1] == pat[1]);
        }
    }
}

/// Where `pat` does not occur in `x`, and what follows `x` begins with a
/// character that `pat` holds at its start at most, no occurrence of `pat`
/// begins inside `x`.
pub proof fn lemma_none_begins_before(x: Seq<char>, y: Seq<char>, pat: Seq<char>)
    requires
        forall|j: int| !occurs_at(x, pat, j),
        y.len() > 0,
        forall|k: int| 1 <= k < pat.len() ==> pat[k] != y[0],
    ensures
        forall|j: int| 0 <= j < x.len() ==> !occurs_at(x + y, pat, j),
{
    assert forall|j: int| 0 <= j < x.len() implies !occurs_at(x + y, pat, j) by {
        if occurs_at(x + y, pat, j) {
            if j + pat.len() <= x.len() {
                assert(x.subrange(j, j + pat.len()) =~= (x + y).subrange(j, j + pat.len()));
                assert(occurs_at(x, pat, j));
            } else {
                lemma_occurs_at_chars(x + y, pat, j);
                let k = x.len() - j;
                assert((x + y)[j + k] == pat[k]);
                assert((x + y)[j + k] == y[0]);
            }
        }
    }
}

/// An occurrence in what follows `x` is an occurrence in the whole, as far
/// to the right as `x` is long, and the other way round.
pub proof fn lemma_occurs_after(x: Seq<char>, y: Seq<char>, pat: Seq<char>, j: int)
    requires
        0 <= j,
    ensures
        occurs_at(x + y, pat, x.len() + j) <==> occurs_at(y, pat, j),
{
    if j + pat.len() <= y.len() {
        assert((x + y).subrange(x.len() + j, x.len() + j + pat.len()) =~= y.subrange(
            j,
            j + pat.len(),
        ));
    }
}

/// After a text that is guarded against the first two characters of `pat`,
/// and before what begins with `pat`, stands the first occurrence of `pat`.
pub proof fn lemma_index_of_after_guarded(x: Seq<char>, y: Seq<char>, pat: Seq<char>)
    requires
        pat.len() >= 2,
        guarded(x, pat[0], pat[1]),
        occurs_at(y, pat, 0),
    ensures
        index_of(x + y, pat) == Some(x.len() as int),
{
    lemma_none_begins_in_guarded(x, y, pat);
    lemma_occurs_after(x, y, pat, 0);
    lemma_index_of_first(x + y, pat, x.len() as int);
}

/// `pat` does not occur in a text that is guarded against its first two
/// characters.
pub proof fn lemma_index_of_guarded(x: Seq<char>, pat: Seq<char>)
    requires
        pat.len() >= 2,
        guarded(x, pat[0], pat[1]),
    ensures
        index_of(x, pat) is None,
{
    lemma_none_begins_in_guarded(x, Seq::empty(), pat);
    assert(x + Seq::<char>::empty() =~= x);
    lemma_index_of(x, pat);
    if let Some(i) = index_of(x, pat) {
        assert(occurs_at(x, pat, i));
    }
}

/// Whether `pat` stands in `hay` at position `i`.
fn matches_at(hay: &[char], pat: &[char], i: usize) -> (found: bool)
    requires
        i + pat@.len() <= hay@.len(),
    ensures
        found == occurs_at(hay@, pat@, i as int),
{
    let n: usize = hay.len();
    let mut k: usize = 0;
    while k < pat.len()
        invariant
            k <= pat@.len(),
            i + pat@.len() <= hay@.len(),
            n == hay@.len(),
            forall|j: int| 0 <= j < k ==> hay@[i + j] == pat@[j],
        decreases pat.len() - k,
    {
        if hay[i + k] != pat[k] {
            assert(hay@.subrange(i as int, i + pat@.len())[k as int] != pat@[k as int]);
            return false;
        }
        k += 1;
    }
    assert(hay@.subrange(i as int, i + pat@.len()) =~= pat@);
    true
}

/// The position of the first occurrence of `pat` in `hay`.
pub fn find(hay: &[char], pat: &[char]) -> (found: Option<usize>)
    ensures
        match found {
            Some(i) => index_of(hay@, pat@) == Some(i as int),
            None => index_of(hay@, pat@) is None,
        },
{
    if pat.len() <= hay.len() {
        let last: usize = hay.len() - pat.len();
        let mut i: usize = 0;
        while i < last && !matches_at(hay, pat, i)
            invariant
                last == hay@.len() - pat@.len(),
                i <= last,
                forall|j: int| 0 <= j < i ==> !occurs_at(hay@, pat@, j),
            decreases last - i,
        {
            i += 1;
        }
        if matches_at(hay, pat, i) {
            proof {
                lemma_index_of_first(hay@, pat@, i as int);
            }
            return Some(i);
        }
    }
    proof {
        lemma_index_of(hay@, pat@);
    }
    None
}

/// The white-space characters: those that Unicode gives the property
/// `White_Space`.
pub open spec fn whitespace(c: char) -> bool {
    let u = c as u32;
    ||| 0x09 <= u <= 0x0d
    ||| u == 0x20
    ||| u == 0x85
    ||| u == 0xa0
    ||| u == 0x1680
    ||| 0x2000 <= u <= 0x200a
    ||| u == 0x2028
    ||| u == 0x2029
    ||| u == 0x202f
    ||| u == 0x205f
    ||| u == 0x3000
}

/// `s` without the white space it begins with.
pub open spec fn trimmed_start(s: Seq<char>) -> Seq<char>
    decreases s.len(),
{
    if s.len() > 0 && whitespace(s.first()) {
        trimmed_start(s.drop_first())
    } else {
        s
    }
}

/// `s` without the white space it ends with.
pub open spec fn trimmed_end(s: Seq<char>) -> Seq<char>
    decreases s.len(),
{
    if s.len() > 0 && whitespace(s.last()) {
        trimmed_end(s.drop_last())
    } else {
        s
    }
}

/// `s` without the white space at either end.
pub open spec fn trimmed(s: Seq<char>) -> Seq<char> {
    trimmed_end(trimmed_start(s))
}

/// Whether `c` is a white-space character.
pub fn is_whitespace(c: char) -> (white: bool)
    ensures
        white == whitespace(c),
{
    let u: u32 = c as u32;
    (0x09 <= u && u <= 0x0d) || u == 0x20 || u == 0x85 || u == 0xa0 || u == 0x1680 || (0x2000 <= u
        && u <= 0x200a) || u == 0x2028 || u == 0x2029 || u == 0x202f || u == 0x205f || u == 0x3000
}

/// The part of `s` that is left when the white space at both ends is taken
/// away.
pub fn trim<'a>(s: &'a [char]) -> (out: &'a [char])
    ensures
        out@ == trimmed(s@),
{
    let mut lo: usize = 0;
    assert(s@ =~= s@.subrange(0, s@.len() as int));
    while lo < s.len() && is_whitespace(s[lo])
        invariant
            lo <= s@.len(),
            trimmed_start(s@) == trimmed_start(s@.subrange(lo as int, s@.len() as int)),
        decreases s.len() - lo,
    {
        assert(s@.subrange(lo as int, s@.len() as int).drop_first() =~= s@.subrange(
            lo + 1,
            s@.len() as int,
        ));
        lo += 1;
    }
    let mut hi: usize = s.len();
    while lo < hi && is_whitespace(s[hi - 1])
        invariant
            lo <= hi <= s@.len(),
            trimmed(s@) == trimmed_end(s@.subrange(lo as int, hi as int)),
        decreases hi,
    {
        assert(s@.subrange(lo as int, hi as int).drop_last() =~= s@.subrange(lo as int, hi - 1));
        hi -= 1;
    }
    slice_subrange(s, lo, hi)
}

} // verus!
