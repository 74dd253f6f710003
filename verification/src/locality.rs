//! What a rule reads depends only on the text up to where the rule stops:
//! more text after that changes nothing.

use vstd::prelude::*;
use crate::chars::{
    is_space, lemma_span_end_bounds, lemma_span_end_is, lemma_span_end_run, span_end, Class,
};
use crate::error::ParseError;
use crate::grammar::{
    document, entries_at, entry_at, has_char, label_at, lemma_entry_start, lemma_number_alone,
    number_at, skip_space, starts_atom, string_body, table_at, value_at,
};
use crate::progress::{lemma_entry_bounded, lemma_value_bounded};
use crate::value::Entries;

verus! {

/// Whether the text `long` starts with the text `short`.
pub open spec fn extends(long: Seq<char>, short: Seq<char>) -> bool {
    &&& short.len() <= long.len()
    &&& forall|i: int|
        #![trigger short[i]]
        #![trigger long[i]]
        0 <= i < short.len() ==> long[i] == short[i]
}

/// A run that ends within a text ends at the same place when the text goes
/// on; so does one that ends with the text, if the text goes on with a
/// character of another class.
pub proof fn lemma_span_end_extends(long: Seq<char>, short: Seq<char>, from: int, class: Class)
    requires
        extends(long, short),
        0 <= from <= short.len(),
        span_end(short, from, class) < short.len() || long.len() == short.len() || !class.has(
            long[short.len() as int],
        ),
    ensures
        span_end(long, from, class) == span_end(short, from, class),
{
    let end = span_end(short, from, class);
    lemma_span_end_bounds(short, from, class);
    lemma_span_end_run(short, from, class);
    assert forall|i: int| from <= i < end implies class.has(#[trigger] long[i]) by {
        assert(long[i] == short[i]);
    }
    if end < short.len() {
        assert(long[end] == short[end]);
    }
    lemma_span_end_is(long, from, end, class);
}

/// A number that is read within a text, with no point after it, is read the
/// same when the text goes on.
pub proof fn lemma_number_extends(long: Seq<char>, short: Seq<char>, from: int)
    requires
        extends(long, short),
        0 <= from <= short.len(),
        number_at(short, from) matches Ok(end) && end < short.len() && short[end] != '.',
    ensures
        number_at(long, from) == number_at(short, from),
{
    let first = if has_char(short, from, '-') {
        from + 1
    } else {
        from
    };
    let whole = span_end(short, first, Class::Digit);
    lemma_number_alone(short, from);
    lemma_span_end_bounds(short, first, Class::Digit);
    assert(long[from] == short[from]);
    lemma_span_end_extends(long, short, first, Class::Digit);
    if has_char(short, whole, '.') {
        lemma_span_end_bounds(short, whole + 1, Class::Digit);
        lemma_span_end_extends(long, short, whole + 1, Class::Digit);
    }
    assert(long[whole] == short[whole]);
}

/// A string that is read in a text is read the same when the text goes on.
pub proof fn lemma_string_body_extends(long: Seq<char>, short: Seq<char>, from: int)
    requires
        extends(long, short),
        0 <= from <= short.len(),
        string_body(short, from) is Ok,
    ensures
        string_body(long, from) == string_body(short, from),
    decreases short.len() - from,
{
    assert(long[from] == short[from]);
    if short[from] != '"' {
        if short[from] == '\\' {
            assert(long[from + 1] == short[from + 1]);
            lemma_string_body_extends(long, short, from + 2);
        } else {
            lemma_string_body_extends(long, short, from + 1);
        }
    }
}

/// A value that is read within a text, with no point after it, is read the
/// same when the text goes on.
pub proof fn lemma_value_extends(long: Seq<char>, short: Seq<char>, from: int)
    requires
        extends(long, short),
        0 <= from <= short.len(),
        value_at(short, from) matches Ok((_, end)) && end < short.len() && short[end] != '.',
    ensures
        value_at(long, from) == value_at(short, from),
    decreases short.len() - from, 1int,
{
    lemma_value_bounded(short, from);
    assert(long[from] == short[from]);
    if starts_atom(short, from) {
        if has_char(short, from, '"') {
            lemma_string_body_extends(long, short, from + 1);
        } else {
            lemma_number_extends(long, short, from);
            assert(long.subrange(from, number_at(short, from)->Ok_0) =~= short.subrange(
                from,
                number_at(short, from)->Ok_0,
            ));
        }
    } else {
        lemma_table_extends(long, short, from);
    }
}

/// A table that is read in a text is read the same when the text goes on,
/// unless the table ends with the text and whitespace follows.
pub proof fn lemma_table_extends(long: Seq<char>, short: Seq<char>, from: int)
    requires
        extends(long, short),
        0 <= from <= short.len(),
        table_at(short, from) is Ok,
        table_at(short, from)->Ok_0.1 < short.len() || long.len() == short.len() || !is_space(
            long[short.len() as int],
        ),
    ensures
        table_at(long, from) == table_at(short, from),
    decreases short.len() - from, 0int,
{
    let open = skip_space(short, from);
    lemma_span_end_bounds(short, from, Class::Space);
    lemma_span_end_extends(long, short, from, Class::Space);
    assert(long[open] == short[open]);
    let first = skip_space(short, open + 1);
    lemma_span_end_bounds(short, open + 1, Class::Space);
    if has_char(short, first, '}') {
        lemma_span_end_extends(long, short, open + 1, Class::Space);
        assert(long[first] == short[first]);
        lemma_span_end_bounds(short, first + 1, Class::Space);
        lemma_span_end_extends(long, short, first + 1, Class::Space);
    } else {
        lemma_entry_bounded(short, first);
        lemma_span_end_extends(long, short, open + 1, Class::Space);
        assert(long[first] == short[first]);
        lemma_entries_extend(long, short, first);
    }
}

/// The same for the entries of a table and the brace that closes it.
pub proof fn lemma_entries_extend(long: Seq<char>, short: Seq<char>, from: int)
    requires
        extends(long, short),
        0 <= from <= short.len(),
        entries_at(short, from) is Ok,
        entries_at(short, from)->Ok_0.1 < short.len() || long.len() == short.len() || !is_space(
            long[short.len() as int],
        ),
    ensures
        entries_at(long, from) == entries_at(short, from),
    decreases short.len() - from, 3int,
{
    let next = entry_at(short, from)->Ok_0.1;
    lemma_entry_bounded(short, from);
    lemma_entry_extends(long, short, from);
    assert(long[next] == short[next]);
    if has_char(short, next, '}') {
        lemma_span_end_bounds(short, next + 1, Class::Space);
        lemma_span_end_extends(long, short, next + 1, Class::Space);
    } else {
        lemma_entries_extend(long, short, next + 1);
    }
}

/// An entry that is read within a text, with no point after it, is read the
/// same when the text goes on.
pub proof fn lemma_entry_extends(long: Seq<char>, short: Seq<char>, from: int)
    requires
        extends(long, short),
        0 <= from <= short.len(),
        entry_at(short, from) matches Ok((_, next)) && next < short.len() && short[next] != '.',
    ensures
        entry_at(long, from) == entry_at(short, from),
    decreases short.len() - from, 2int,
{
    let start = skip_space(short, from);
    lemma_entry_start(short, from);
    let at = match label_at(short, start) {
        Some((_, at)) => at,
        None => start,
    };
    lemma_value_bounded(short, at);
    let end = value_at(short, at)->Ok_0.1;
    lemma_span_end_bounds(short, end, Class::Space);
    lemma_span_end_run(short, end, Class::Space);
    // The whitespace before the entry, and the label if there is one.
    lemma_span_end_extends(long, short, from, Class::Space);
    let letters = span_end(short, start, Class::Alpha);
    lemma_span_end_bounds(short, start, Class::Alpha);
    if letters < short.len() {
        lemma_span_end_extends(long, short, start, Class::Alpha);
        let eq = skip_space(short, letters);
        lemma_span_end_bounds(short, letters, Class::Space);
        if eq < short.len() {
            lemma_span_end_extends(long, short, letters, Class::Space);
            assert(long[eq] == short[eq]);
            if has_char(short, eq, '=') && start < letters {
                lemma_span_end_extends(long, short, eq + 1, Class::Space);
                assert(long.subrange(start, letters) =~= short.subrange(start, letters));
            }
        } else {
            // Letters and whitespace up to the end of the text: no value.
            assert(start < short.len() && is_space(short[start]) == false);
            assert(false);
        }
    } else {
        assert(false);
    }
    assert(label_at(long, start) == label_at(short, start));
    // The value, and the whitespace after it.
    lemma_value_extends(long, short, at);
    lemma_span_end_extends(long, short, end, Class::Space);
}

/// Where a document is followed by anything but whitespace, the whole is no
/// document: the error says that data trails the table, and where.
pub proof fn lemma_trailing_data(s: Seq<char>, rest: Seq<char>)
    requires
        document(s) is Ok,
        rest.len() > 0,
        !is_space(rest[0]),
    ensures
        document(s + rest) == Err::<Entries, ParseError>(
            ParseError::TrailingData { position: s.len() as usize },
        ),
{
    let long = s + rest;
    lemma_value_bounded(s, 0);
    assert(long[s.len() as int] == rest[0]);
    assert(long[0] == s[0]);
    lemma_table_extends(long, s, 0);
}

} // verus!
