//! Names and the characters they are made of.

use vstd::prelude::*;

verus! {

/// The lowercase form of `text`, as the standard library defines it for strings.
///
/// Names are compared by this form. Nothing else is assumed of it.
pub uninterp spec fn lowercase(text: Seq<char>) -> Seq<char>;

/// `str::to_lowercase` of the standard library. The result is taken to be
/// [`lowercase`] of the argument: the same text always lowers to the same text.
#[verifier::external_body]
pub(crate) fn to_lowercase(text: &str) -> (out: String)
    ensures
        out@ == lowercase(text@),
{
    text.to_lowercase()
}

/// Whether `c` is a blank that may surround a name.
pub open spec fn is_blank(c: char) -> bool {
    c == ' ' || c == '\t' || c == '\n' || c == '\r'
}

/// The position of the first `c` in `s`, or the length of `s` where it holds none.
pub open spec fn first_index(s: Seq<char>, c: char) -> int
    decreases s.len(),
{
    if s.len() == 0 {
        0
    } else if s[0] == c {
        0
    } else {
        1 + first_index(s.drop_first(), c)
    }
}

/// `s` without the blanks at its start.
pub open spec fn without_leading_blanks(s: Seq<char>) -> Seq<char>
    decreases s.len(),
{
    if s.len() > 0 && is_blank(s[0]) {
        without_leading_blanks(s.drop_first())
    } else {
        s
    }
}

/// `s` without the blanks at its end.
pub open spec fn without_trailing_blanks(s: Seq<char>) -> Seq<char>
    decreases s.len(),
{
    if s.len() > 0 && is_blank(s.last()) {
        without_trailing_blanks(s.drop_last())
    } else {
        s
    }
}

/// `s` without the blanks at either end.
pub open spec fn trimmed(s: Seq<char>) -> Seq<char> {
    without_trailing_blanks(without_leading_blanks(s))
}

/// The names that `s` lists: its pieces between commas, each trimmed, the empty
/// ones left out, in the order in which they stand.
pub open spec fn names_in(s: Seq<char>) -> Seq<Seq<char>>
    decreases s.len(),
{
    let comma = first_index(s, ',');
    let head = trimmed(s.take(comma));
    let rest = if 0 <= comma < s.len() {
        names_in(s.skip(comma + 1))
    } else {
        Seq::empty()
    };
    if head.len() > 0 {
        seq![head] + rest
    } else {
        rest
    }
}

/// [`first_index`] is the one position before which no `c` stands and at which one
/// does, if any does.
pub proof fn lemma_first_index(s: Seq<char>, c: char, i: int)
    requires
        0 <= i <= s.len(),
        forall|j: int| 0 <= j < i ==> s[j] != c,
        i < s.len() ==> s[i] == c,
    ensures
        first_index(s, c) == i,
    decreases s.len(),
{
    if s.len() != 0 && s[0] != c {
        let rest = s.drop_first();
        assert forall|j: int| 0 <= j < i - 1 implies rest[j] != c by {
            assert(rest[j] == s[j + 1]);
        }
        lemma_first_index(rest, c, i - 1);
    }
}

/// [`first_index`] lies within `s` or at its end, and no `c` stands before it.
pub proof fn lemma_first_index_bounds(s: Seq<char>, c: char)
    ensures
        0 <= first_index(s, c) <= s.len(),
        forall|j: int| 0 <= j < first_index(s, c) ==> s[j] != c,
        first_index(s, c) < s.len() ==> s[first_index(s, c)] == c,
    decreases s.len(),
{
    if s.len() != 0 && s[0] != c {
        let rest = s.drop_first();
        lemma_first_index_bounds(rest, c);
        assert forall|j: int| 0 <= j < first_index(s, c) implies s[j] != c by {
            if j > 0 {
                assert(rest[j - 1] == s[j]);
            }
        }
    }
}

/// The characters of `text`, one by one.
pub fn chars_of(text: &str) -> (out: Vec<char>)
    ensures
        out@ == text@,
{
    let mut out: Vec<char> = Vec::new();
    for c in it: text.chars()
        invariant
            it.seq() == text@,
            out@ == it.seq().take(it.index() as int),
    {
        out.push(c);
    }
    out
}

/// Tests a character for being a blank.
pub fn blank(c: char) -> (out: bool)
    ensures
        out == is_blank(c),
{
    c == ' ' || c == '\t' || c == '\n' || c == '\r'
}

/// Finds the first `c` among `chars[from..to]`; the result is `to` where there is none.
pub(crate) fn find_char(chars: &Vec<char>, from: usize, to: usize, c: char) -> (out: usize)
    requires
        from <= to <= chars.len(),
    ensures
        from <= out <= to,
        out - from == first_index(chars@.subrange(from as int, to as int), c),
{
    let mut i: usize = from;
    while i < to && chars[i] != c
        invariant
            from <= i <= to <= chars.len(),
            forall|j: int| from <= j < i ==> chars@[j] != c,
        decreases to - i,
    {
        i = i + 1;
    }
    proof {
        lemma_first_index(chars@.subrange(from as int, to as int), c, i - from);
    }
    i
}

/// Narrows `chars[from..to]` to what [`trimmed`] leaves of it.
pub(crate) fn trim_range(chars: &Vec<char>, from: usize, to: usize) -> (out: (usize, usize))
    requires
        from <= to <= chars.len(),
    ensures
        from <= out.0 <= out.1 <= to,
        chars@.subrange(out.0 as int, out.1 as int) == trimmed(
            chars@.subrange(from as int, to as int),
        ),
{
    let mut a: usize = from;
    while a < to && blank(chars[a])
        invariant
            from <= a <= to <= chars.len(),
            without_leading_blanks(chars@.subrange(from as int, to as int))
                == without_leading_blanks(chars@.subrange(a as int, to as int)),
        decreases to - a,
    {
        assert(chars@.subrange(a as int, to as int).drop_first() == chars@.subrange(
            a + 1,
            to as int,
        ));
        a = a + 1;
    }
    let mut b: usize = to;
    while a < b && blank(chars[b - 1])
        invariant
            a <= b <= to <= chars.len(),
            without_trailing_blanks(chars@.subrange(a as int, to as int))
                == without_trailing_blanks(chars@.subrange(a as int, b as int)),
        decreases b - a,
    {
        assert(chars@.subrange(a as int, b as int).drop_last() == chars@.subrange(
            a as int,
            b - 1,
        ));
        b = b - 1;
    }
    (a, b)
}

/// The text of `source` from position `from` up to `to`, counted in characters.
pub(crate) fn cut(source: &str, from: usize, to: usize) -> (out: String)
    requires
        from <= to <= source@.len(),
    ensures
        out@ == source@.subrange(from as int, to as int),
{
    source.substring_char(from, to).to_owned()
}

/// The names listed in `source[from..to]`, where `chars` holds the characters of
/// `source`.
pub(crate) fn names_between(source: &str, chars: &Vec<char>, from: usize, to: usize) -> (out: Vec<String>)
    requires
        chars@ == source@,
        from <= to <= chars.len(),
    ensures
        out.deep_view() == names_in(chars@.subrange(from as int, to as int)),
{
    let mut out: Vec<String> = Vec::new();
    let mut start: usize = from;
    let mut more: bool = true;
    while more
        invariant
            chars@ == source@,
            from <= start <= to <= chars.len(),
            names_in(chars@.subrange(from as int, to as int)) == out.deep_view() + (if more {
                names_in(chars@.subrange(start as int, to as int))
            } else {
                Seq::empty()
            }),
        decreases to - start + (if more { 1int } else { 0int }),
    {
        let ghost piece = chars@.subrange(start as int, to as int);
        let comma = find_char(chars, start, to, ',');
        let (a, b) = trim_range(chars, start, comma);
        proof {
            assert(piece.take(comma - start) == chars@.subrange(start as int, comma as int));
            if comma < to {
                assert(piece.skip(comma - start + 1) == chars@.subrange(comma + 1, to as int));
            }
        }
        if a < b {
            let name = cut(source, a, b);
            out.push(name);
        }
        if comma < to {
            start = comma + 1;
        } else {
            more = false;
        }
    }
    out
}

} // verus!
