//! What holds of the reading of whole texts and of the entries of tables.

use vstd::prelude::*;
use crate::chars::{is_alpha, is_space, lemma_span_end_bounds, lemma_span_end_is, Class};
use crate::error::ParseError;
use crate::grammar::{
    atom_at, document, entry_at, label_at, skip_space, starts_atom, table_at, value_at,
};
use crate::progress::{lemma_table_stops, lemma_value_bounded};
use crate::value::{Entries, Node};
use crate::wellformed::{entries_well_formed, lemma_value_well_formed};

verus! {

/// Whether all of `t` is whitespace.
pub open spec fn all_space(t: Seq<char>) -> bool {
    forall|i: int| 0 <= i < t.len() ==> is_space(#[trigger] t[i])
}

/// A pair of braces with nothing but whitespace before, between and after
/// them is a document, and it holds the empty table.
pub proof fn lemma_empty_table(before: Seq<char>, between: Seq<char>, after: Seq<char>)
    requires
        all_space(before),
        all_space(between),
        all_space(after),
    ensures
        document(before + seq!['{'] + between + seq!['}'] + after) == Ok::<Entries, ParseError>(
            Seq::empty(),
        ),
{
    let s = before + seq!['{'] + between + seq!['}'] + after;
    let open = before.len() as int;
    let close = open + 1 + between.len();
    assert(s[open] == '{');
    assert(s[close] == '}');
    assert forall|i: int| 0 <= i < open implies Class::Space.has(#[trigger] s[i]) by {
        assert(s[i] == before[i]);
    }
    assert forall|i: int| open + 1 <= i < close implies Class::Space.has(#[trigger] s[i]) by {
        assert(s[i] == between[i - open - 1]);
    }
    assert forall|i: int| close + 1 <= i < s.len() implies Class::Space.has(#[trigger] s[i]) by {
        assert(s[i] == after[i - close - 1]);
    }
    lemma_span_end_is(s, 0, open, Class::Space);
    lemma_span_end_is(s, open + 1, close, Class::Space);
    lemma_span_end_is(s, close + 1, s.len() as int, Class::Space);
    assert(!starts_atom(s, 0)) by {
        if open > 0 {
            assert(is_space(s[0]));
        }
    }
}

/// A text that starts with a number or a string is no document: what it
/// holds is no table. And only such a text fails in that way.
pub proof fn lemma_atom_is_no_document(s: Seq<char>)
    ensures
        starts_atom(s, 0) && atom_at(s, 0) is Ok ==> document(s) == Err::<Entries, ParseError>(
            ParseError::NonObject,
        ),
        document(s) == Err::<Entries, ParseError>(ParseError::NonObject) ==> starts_atom(s, 0)
            && atom_at(s, 0) is Ok,
{
}

/// A text is a document only if it holds a table from its start to its end,
/// and the entries of that table are what the document holds. What a
/// document holds is well formed.
pub proof fn lemma_document_is_table(s: Seq<char>)
    ensures
        document(s) matches Ok(entries) ==> table_at(s, 0) == Ok::<(Entries, int), int>(
            (entries, s.len() as int),
        ) && entries_well_formed(entries),
{
    lemma_value_well_formed(s, 0);
}

/// The position that an error names lies within the text or at its end.
pub proof fn lemma_error_position(s: Seq<char>)
    requires
        s.len() <= usize::MAX,
    ensures
        document(s) matches Err(ParseError::Syntax { position }) ==> position <= s.len()
            && value_at(s, 0) == Err::<(Node, int), int>(position as int),
        document(s) matches Err(ParseError::TrailingData { position }) ==> 0 < position < s.len()
            && !is_space(s[position as int]),
{
    lemma_value_bounded(s, 0);
    if let Ok((Node::Object(_), end)) = value_at(s, 0) {
        lemma_table_stops(s, 0);
    }
}

/// A label is a label only with `=` after it. An entry has a label exactly
/// where letters and, whitespace aside, `=` stand at its start. Where neither
/// stands there the entry is the value that stands there, without a label.
/// Where letters stand there without `=` after them the entry is malformed,
/// and the error names the first letter.
pub proof fn lemma_label_needs_equals(s: Seq<char>, from: int)
    requires
        0 <= from <= s.len(),
    ensures
        ({
            let start = skip_space(s, from);
            &&& entry_at(s, from) matches Ok(((Some(label), _), _)) ==> label_at(s, start)
                matches Some((l, _)) && l == label
            &&& label_at(s, start) is None ==> entry_at(s, from) == match value_at(s, start) {
                Ok((node, end)) => Ok(((None::<Seq<char>>, node), skip_space(s, end))),
                Err(at) => Err(at),
            }
            &&& label_at(s, start) is None && start < s.len() && is_alpha(s[start]) ==> entry_at(
                s,
                from,
            ) == Err::<((Option<Seq<char>>, Node), int), int>(start)
        }),
{
    let start = skip_space(s, from);
    lemma_span_end_bounds(s, from, Class::Space);
    if label_at(s, start) is None && start < s.len() && is_alpha(s[start]) {
        assert(skip_space(s, start) == start);
    }
}

} // verus!
