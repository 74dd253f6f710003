//! Every rule of the grammar moves forward and stays within the text.

use vstd::prelude::*;
use crate::chars::{is_space, lemma_span_end_bounds, lemma_span_end_run, Class};
use crate::grammar::{
    atom_at, entries_at, entry_at, has_char, label_at, lemma_entry_start, lemma_number_alone,
    number_at, skip_space, starts_atom, string_body, table_at, value_at,
};

verus! {

/// Whether the outcome `m` of a rule applied at `from` to a text of `len`
/// characters stays within the text: a match ends after `from`, a mismatch is
/// found at or after `from`.
pub open spec fn bounded<T>(m: Result<(T, int), int>, from: int, len: nat) -> bool {
    match m {
        Ok((_, end)) => from < end <= len,
        Err(at) => from <= at <= len,
    }
}

/// The body of a string ends after the position at which it is read.
pub proof fn lemma_string_body_bounded(s: Seq<char>, from: int)
    requires
        0 <= from <= s.len(),
    ensures
        bounded(string_body(s, from), from, s.len()),
    decreases s.len() - from,
{
    if from < s.len() && s[from] != '"' && s[from] != '\n' {
        if s[from] == '\\' {
            if has_char(s, from + 1, '"') {
                lemma_string_body_bounded(s, from + 2);
            }
        } else {
            lemma_string_body_bounded(s, from + 1);
        }
    }
}

/// An atom ends after the position at which it is read.
pub proof fn lemma_atom_bounded(s: Seq<char>, from: int)
    requires
        0 <= from <= s.len(),
    ensures
        bounded(atom_at(s, from), from, s.len()),
{
    if has_char(s, from, '"') {
        lemma_string_body_bounded(s, from + 1);
    } else if number_at(s, from) is Ok {
        lemma_number_alone(s, from);
    } else {
        lemma_span_end_bounds(s, from, Class::Digit);
    }
}

/// A value ends after the position at which it is read.
pub proof fn lemma_value_bounded(s: Seq<char>, from: int)
    requires
        0 <= from <= s.len(),
    ensures
        bounded(value_at(s, from), from, s.len()),
    decreases s.len() - from, 1int,
{
    if starts_atom(s, from) {
        lemma_atom_bounded(s, from);
    } else {
        lemma_table_bounded(s, from);
    }
}

/// A table ends after the position at which it is read.
pub proof fn lemma_table_bounded(s: Seq<char>, from: int)
    requires
        0 <= from <= s.len(),
    ensures
        bounded(table_at(s, from), from, s.len()),
    decreases s.len() - from, 0int,
{
    let open = skip_space(s, from);
    lemma_span_end_bounds(s, from, Class::Space);
    if has_char(s, open, '{') {
        let first = skip_space(s, open + 1);
        lemma_span_end_bounds(s, open + 1, Class::Space);
        if has_char(s, first, '}') {
            lemma_span_end_bounds(s, first + 1, Class::Space);
        } else {
            lemma_entries_bounded(s, first);
        }
    }
}

/// The entries of a table end after the position at which they are read.
pub proof fn lemma_entries_bounded(s: Seq<char>, from: int)
    requires
        0 <= from <= s.len(),
    ensures
        bounded(entries_at(s, from), from, s.len()),
    decreases s.len() - from, 3int,
{
    lemma_entry_bounded(s, from);
    if let Ok((_, next)) = entry_at(s, from) {
        if has_char(s, next, '}') {
            lemma_span_end_bounds(s, next + 1, Class::Space);
        } else if has_char(s, next, ',') {
            lemma_entries_bounded(s, next + 1);
        }
    }
}

/// An entry ends after the position at which it is read.
pub proof fn lemma_entry_bounded(s: Seq<char>, from: int)
    requires
        0 <= from <= s.len(),
    ensures
        bounded(entry_at(s, from), from, s.len()),
    decreases s.len() - from, 2int,
{
    let start = skip_space(s, from);
    lemma_entry_start(s, from);
    let at = match label_at(s, start) {
        Some((_, at)) => at,
        None => start,
    };
    lemma_value_bounded(s, at);
    if let Ok((_, end)) = value_at(s, at) {
        lemma_span_end_bounds(s, end, Class::Space);
    }
}

/// After a table no whitespace is left: a table ends at the end of the text
/// or before a character that is no whitespace.
pub proof fn lemma_table_stops(s: Seq<char>, from: int)
    requires
        0 <= from <= s.len(),
    ensures
        table_at(s, from) matches Ok((_, end)) ==> end == s.len() || (0 <= end < s.len()
            && !is_space(s[end])),
{
    let open = skip_space(s, from);
    lemma_span_end_bounds(s, from, Class::Space);
    if has_char(s, open, '{') {
        let first = skip_space(s, open + 1);
        lemma_span_end_bounds(s, open + 1, Class::Space);
        if has_char(s, first, '}') {
            lemma_span_end_bounds(s, first + 1, Class::Space);
            lemma_span_end_run(s, first + 1, Class::Space);
        } else {
            lemma_entries_stop(s, first);
        }
    }
}

/// The same for the entries of a table and the brace that closes it.
pub proof fn lemma_entries_stop(s: Seq<char>, from: int)
    requires
        0 <= from <= s.len(),
    ensures
        entries_at(s, from) matches Ok((_, end)) ==> end == s.len() || (0 <= end < s.len()
            && !is_space(s[end])),
    decreases s.len() - from,
{
    if let Ok((_, next)) = entry_at(s, from) {
        if has_char(s, next, '}') {
            lemma_span_end_bounds(s, next + 1, Class::Space);
            lemma_span_end_run(s, next + 1, Class::Space);
        } else if has_char(s, next, ',') && from <= next {
            lemma_entries_stop(s, next + 1);
        }
    }
}

/// After an entry that is followed by a comma, the next entry is read further
/// on: the condition `from <= next` in [`entries_at`] holds of every text.
pub proof fn lemma_entries_advance(s: Seq<char>, from: int)
    requires
        0 <= from <= s.len(),
    ensures
        entry_at(s, from) matches Ok((_, next)) ==> from < next,
{
    lemma_entry_bounded(s, from);
}

} // verus!
