//! The grammar of the notation, as functions from a text and a position in it
//! to what the text holds at that position.
//!
//! ```text
//! value      := atom | table
//! atom       := number | string
//! number     := '-'? digit+ ('.' digit+)?
//! string     := '"' stringchar* '"'
//! stringchar := any character but backslash, double quote and line feed
//!             | backslash double-quote
//! table      := '{' (entry (',' entry)*)? '}'
//! entry      := (label '=')? value
//! label      := alpha+
//! ```
//!
//! Whitespace may stand on either side of a label, of `=`, of an entry's
//! value, of `,`, of `{` and of `}`.
//!
//! Positions count characters. A rule that matches gives what it recognised
//! and the position just past it; one that does not gives the position at
//! which the text stops fitting the rule.

use vstd::prelude::*;
use crate::chars::{
    Class, is_digit, lemma_span_end_bounds, lemma_span_end_is, lemma_span_end_run, span_end,
};
use crate::error::ParseError;
use crate::value::{Entries, Node};

verus! {

/// The end of the run of whitespace that starts at `from`.
pub open spec fn skip_space(s: Seq<char>, from: int) -> int {
    span_end(s, from, Class::Space)
}

/// Whether `s` holds the character `c` at `at`.
pub open spec fn has_char(s: Seq<char>, at: int, c: char) -> bool {
    0 <= at < s.len() && s[at] == c
}

/// `number := '-'? digit+ ('.' digit+)?`
///
/// The end of the number that starts at `from`. The fraction belongs to the
/// number only if a digit follows the point.
pub open spec fn number_at(s: Seq<char>, from: int) -> Result<int, int> {
    let first = if has_char(s, from, '-') {
        from + 1
    } else {
        from
    };
    let whole = span_end(s, first, Class::Digit);
    let fraction = span_end(s, whole + 1, Class::Digit);
    if whole == first {
        Err(first)
    } else if has_char(s, whole, '.') && fraction > whole + 1 {
        Ok(fraction)
    } else {
        Ok(whole)
    }
}

/// Whether all of `t` is one number.
pub open spec fn is_number(t: Seq<char>) -> bool {
    number_at(t, 0) == Ok::<int, int>(t.len() as int)
}

/// A number that the text holds is a number when it stands alone.
pub proof fn lemma_number_alone(s: Seq<char>, from: int)
    requires
        0 <= from <= s.len(),
        number_at(s, from) is Ok,
    ensures
        from < number_at(s, from)->Ok_0 <= s.len(),
        is_number(s.subrange(from, number_at(s, from)->Ok_0)),
{
    let end = number_at(s, from)->Ok_0;
    let first = if has_char(s, from, '-') {
        from + 1
    } else {
        from
    };
    let whole = span_end(s, first, Class::Digit);
    let fraction = span_end(s, whole + 1, Class::Digit);
    lemma_span_end_bounds(s, first, Class::Digit);
    lemma_span_end_run(s, first, Class::Digit);
    if whole < s.len() {
        lemma_span_end_bounds(s, whole + 1, Class::Digit);
        lemma_span_end_run(s, whole + 1, Class::Digit);
    }
    let t = s.subrange(from, end);
    assert(has_char(t, 0, '-') == has_char(s, from, '-'));
    lemma_span_end_is(t, first - from, whole - from, Class::Digit);
    if end == fraction && end != whole {
        lemma_span_end_is(t, whole + 1 - from, fraction - from, Class::Digit);
    }
}

/// `stringchar* '"'`
///
/// The decoded characters from `from` up to the closing quote, and the
/// position past that quote. A backslash must be followed by a double quote,
/// and the pair stands for one double quote.
pub open spec fn string_body(s: Seq<char>, from: int) -> Result<(Seq<char>, int), int>
    decreases s.len() - from,
{
    if !(0 <= from < s.len()) {
        Err(from)
    } else if s[from] == '"' {
        Ok((Seq::empty(), from + 1))
    } else if s[from] == '\n' {
        Err(from)
    } else if s[from] == '\\' {
        if has_char(s, from + 1, '"') {
            match string_body(s, from + 2) {
                Ok((rest, end)) => Ok((seq!['"'] + rest, end)),
                Err(at) => Err(at),
            }
        } else {
            Err(from + 1)
        }
    } else {
        match string_body(s, from + 1) {
            Ok((rest, end)) => Ok((seq![s[from]] + rest, end)),
            Err(at) => Err(at),
        }
    }
}

/// `string := '"' stringchar* '"'`
pub open spec fn string_at(s: Seq<char>, from: int) -> Result<(Seq<char>, int), int> {
    if has_char(s, from, '"') {
        string_body(s, from + 1)
    } else {
        Err(from)
    }
}

/// `label '='`
///
/// The label that starts at `from`, and the position past the `=` that follows
/// it and past the whitespace after that `=`. `None` where no label starts at
/// `from` or no `=` follows it.
pub open spec fn label_at(s: Seq<char>, from: int) -> Option<(Seq<char>, int)> {
    let end = span_end(s, from, Class::Alpha);
    let eq = skip_space(s, end);
    if from < end && has_char(s, eq, '=') {
        Some((s.subrange(from, end), skip_space(s, eq + 1)))
    } else {
        None
    }
}

/// The value of an entry starts at or after the entry, and within the text if
/// the entry does.
pub proof fn lemma_entry_start(s: Seq<char>, from: int)
    ensures
        match label_at(s, skip_space(s, from)) {
            Some((_, at)) => from <= at && (from <= s.len() ==> at <= s.len()),
            None => true,
        },
        from <= skip_space(s, from),
        from <= s.len() ==> skip_space(s, from) <= s.len(),
{
    let start = skip_space(s, from);
    let end = span_end(s, start, Class::Alpha);
    let eq = skip_space(s, end);
    lemma_span_end_bounds(s, from, Class::Space);
    lemma_span_end_bounds(s, start, Class::Alpha);
    lemma_span_end_bounds(s, end, Class::Space);
    lemma_span_end_bounds(s, eq + 1, Class::Space);
}

/// Whether an atom rather than a table is to be read at `from`: the text
/// there starts with a digit, a minus sign or a double quote.
pub open spec fn starts_atom(s: Seq<char>, from: int) -> bool {
    0 <= from < s.len() && (s[from] == '-' || is_digit(s[from]) || s[from] == '"')
}

/// `atom := number | string`
///
/// A number denotes itself: the node holds the literal as it stands.
pub open spec fn atom_at(s: Seq<char>, from: int) -> Result<(Node, int), int> {
    if has_char(s, from, '"') {
        match string_at(s, from) {
            Ok((text, end)) => Ok((Node::String(text), end)),
            Err(at) => Err(at),
        }
    } else {
        match number_at(s, from) {
            Ok(end) => Ok((Node::Float(s.subrange(from, end)), end)),
            Err(at) => Err(at),
        }
    }
}

/// `value := atom | table`
///
/// An atom starts at `from` itself; a table may have whitespace before its
/// opening brace and swallows the whitespace after its closing brace.
pub open spec fn value_at(s: Seq<char>, from: int) -> Result<(Node, int), int>
    decreases s.len() - from, 1int,
{
    if starts_atom(s, from) {
        atom_at(s, from)
    } else {
        match table_at(s, from) {
            Ok((entries, end)) => Ok((Node::Object(entries), end)),
            Err(at) => Err(at),
        }
    }
}

/// `table := '{' (entry (',' entry)*)? '}'`
pub open spec fn table_at(s: Seq<char>, from: int) -> Result<(Entries, int), int>
    decreases s.len() - from, 0int,
{
    let open = skip_space(s, from);
    let first = skip_space(s, open + 1);
    if !has_char(s, open, '{') {
        Err(open)
    } else if has_char(s, first, '}') {
        Ok((Seq::empty(), skip_space(s, first + 1)))
    } else {
        proof {
            lemma_span_end_bounds(s, from, Class::Space);
            lemma_span_end_bounds(s, open + 1, Class::Space);
        }
        entries_at(s, first)
    }
}

/// `entry (',' entry)* '}'`
///
/// The entries from `from` up to the closing brace, and the position past
/// that brace and the whitespace after it. (That an entry ends at or after
/// its start, `from <= next`, holds of every text; it stands here for the
/// definition to be well founded.)
pub open spec fn entries_at(s: Seq<char>, from: int) -> Result<(Entries, int), int>
    decreases s.len() - from, 3int,
{
    match entry_at(s, from) {
        Err(at) => Err(at),
        Ok((entry, next)) => {
            if has_char(s, next, '}') {
                Ok((seq![entry], skip_space(s, next + 1)))
            } else if has_char(s, next, ',') && from <= next {
                match entries_at(s, next + 1) {
                    Ok((rest, end)) => Ok((seq![entry] + rest, end)),
                    Err(at) => Err(at),
                }
            } else {
                Err(next)
            }
        },
    }
}

/// `entry := (label '=')? value`
///
/// The entry that starts at `from`, whitespace before it allowed, and the
/// position past it and the whitespace after it. Where no label with its `=`
/// stands at the start, the entry is the value that stands there.
pub open spec fn entry_at(s: Seq<char>, from: int) -> Result<((Option<Seq<char>>, Node), int), int>
    decreases s.len() - from, 2int,
{
    let start = skip_space(s, from);
    let (label, at) = match label_at(s, start) {
        Some((label, at)) => (Some(label), at),
        None => (None, start),
    };
    proof {
        lemma_entry_start(s, from);
    }
    match value_at(s, at) {
        Ok((node, end)) => Ok(((label, node), skip_space(s, end))),
        Err(at) => Err(at),
    }
}

/// What a whole text denotes: the entries of the table that it holds, or the
/// reason why it is no document.
///
/// A document is one value that is a table, with nothing after it.
pub open spec fn document(s: Seq<char>) -> Result<Entries, ParseError> {
    match value_at(s, 0) {
        Err(at) => Err(ParseError::Syntax { position: at as usize }),
        Ok((Node::Object(entries), end)) => {
            if end == s.len() {
                Ok(entries)
            } else {
                Err(ParseError::TrailingData { position: end as usize })
            }
        },
        Ok(_) => Err(ParseError::NonObject),
    }
}

} // verus!
