//! Character classes of the notation and scanning of runs of one class.

use vstd::prelude::*;

verus! {

/// The three character classes that the notation distinguishes.
#[derive(Clone, Copy, Debug, PartialEq, Eq, Structural)]
pub enum Class {
    /// Space, tab, carriage return and line feed.
    Space,
    /// The ASCII decimal digits.
    Digit,
    /// The ASCII letters of either case.
    Alpha,
}

/// Whether `c` is insignificant whitespace.
pub open spec fn is_space(c: char) -> bool {
    c == ' ' || c == '\t' || c == '\r' || c == '\n'
}

/// Whether `c` is an ASCII decimal digit.
pub open spec fn is_digit(c: char) -> bool {
    '0' <= c <= '9'
}

/// Whether `c` is an ASCII letter.
pub open spec fn is_alpha(c: char) -> bool {
    'a' <= c <= 'z' || 'A' <= c <= 'Z'
}

impl Class {
    /// Whether `c` belongs to this class.
    pub open spec fn has(self, c: char) -> bool {
        match self {
            Class::Space => is_space(c),
            Class::Digit => is_digit(c),
            Class::Alpha => is_alpha(c),
        }
    }

    /// Decides membership of `c` in this class.
    pub fn contains(self, c: char) -> (b: bool)
        ensures
            b == self.has(c),
    {
        match self {
            Class::Space => c == ' ' || c == '\t' || c == '\r' || c == '\n',
            Class::Digit => '0' <= c && c <= '9',
            Class::Alpha => ('a' <= c && c <= 'z') || ('A' <= c && c <= 'Z'),
        }
    }
}

/// The end of the longest run of characters of `class` that starts at `from`:
/// the first index at or after `from` whose character is outside the class, or
/// the length of `s` if there is none.
pub open spec fn span_end(s: Seq<char>, from: int, class: Class) -> int
    decreases s.len() - from,
{
    if 0 <= from < s.len() && class.has(s[from]) {
        span_end(s, from + 1, class)
    } else {
        from
    }
}

/// A run ends at or after its start, and within the text if it starts there.
pub proof fn lemma_span_end_bounds(s: Seq<char>, from: int, class: Class)
    ensures
        from <= span_end(s, from, class),
        from <= s.len() ==> span_end(s, from, class) <= s.len(),
    decreases s.len() - from,
{
    if 0 <= from < s.len() && class.has(s[from]) {
        lemma_span_end_bounds(s, from + 1, class);
    }
}

/// Every character of a run is of its class, and the character after the run,
/// if there is one, is not.
pub proof fn lemma_span_end_run(s: Seq<char>, from: int, class: Class)
    requires
        0 <= from <= s.len(),
    ensures
        forall|i: int| from <= i < span_end(s, from, class) ==> class.has(#[trigger] s[i]),
        span_end(s, from, class) < s.len() ==> !class.has(s[span_end(s, from, class)]),
    decreases s.len() - from,
{
    if from < s.len() && class.has(s[from]) {
        lemma_span_end_run(s, from + 1, class);
    }
}

/// A stretch of characters of one class, followed by the end of the text or
/// by a character outside the class, is the run that starts where it starts.
pub proof fn lemma_span_end_is(s: Seq<char>, from: int, end: int, class: Class)
    requires
        0 <= from <= end <= s.len(),
        forall|i: int| from <= i < end ==> class.has(#[trigger] s[i]),
        end < s.len() ==> !class.has(s[end]),
    ensures
        span_end(s, from, class) == end,
    decreases end - from,
{
    if from < end {
        lemma_span_end_is(s, from + 1, end, class);
    }
}

/// Scans the longest run of characters of `class` starting at `from` and
/// returns the index just past it.
pub fn scan(input: &[char], from: usize, class: Class) -> (end: usize)
    requires
        from <= input@.len(),
    ensures
        end == span_end(input@, from as int, class),
        from <= end <= input@.len(),
{
    let mut i: usize = from;
    while i < input.len() && class.contains(input[i])
        invariant
            from <= i <= input@.len(),
            span_end(input@, from as int, class) == span_end(input@, i as int, class),
        decreases input@.len() - i,
    {
        i += 1;
    }
    i
}

} // verus!
