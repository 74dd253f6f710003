//! What holds of every value that the grammar yields.

use vstd::prelude::*;
use crate::chars::{is_alpha, lemma_span_end_bounds, lemma_span_end_run, Class};
use crate::grammar::{
    entries_at, entry_at, has_char, is_number, label_at, lemma_entry_start, lemma_number_alone,
    number_at, skip_space, starts_atom, string_body, table_at, value_at,
};
use crate::progress::lemma_entry_bounded;
use crate::value::{Entries, Node};

verus! {

/// Whether `t` can be a label: one or more letters.
pub open spec fn is_label(t: Seq<char>) -> bool {
    t.len() > 0 && forall|i: int| 0 <= i < t.len() ==> is_alpha(#[trigger] t[i])
}

/// Whether `t` can be what a string decodes to: it holds no backslash and no
/// line feed.
pub open spec fn is_text(t: Seq<char>) -> bool {
    forall|i: int| 0 <= i < t.len() ==> #[trigger] t[i] != '\\' && t[i] != '\n'
}

/// Whether `label` can be the label of an entry.
pub open spec fn label_well_formed(label: Option<Seq<char>>) -> bool {
    match label {
        Some(t) => is_label(t),
        None => true,
    }
}

/// Whether `node` can be read from a text: each number in it is a decimal
/// literal, each string is free of backslashes and line feeds, and each label
/// is made of letters.
pub open spec fn well_formed(node: Node) -> bool
    decreases node,
{
    match node {
        Node::Float(t) => is_number(t),
        Node::String(t) => is_text(t),
        Node::Object(entries) => entries_well_formed(entries),
    }
}

/// Whether each of `entries` can be read from a text: its label, if it has
/// one, is made of letters, and its value is well formed.
pub open spec fn entries_well_formed(entries: Entries) -> bool
    decreases entries,
{
    forall|i: int|
        0 <= i < entries.len() ==> label_well_formed((#[trigger] entries[i]).0) && well_formed(
            entries[i].1,
        )
}

/// A string decodes to text without backslashes and line feeds.
pub proof fn lemma_string_body_well_formed(s: Seq<char>, from: int)
    requires
        0 <= from <= s.len(),
    ensures
        string_body(s, from) matches Ok((t, _)) ==> is_text(t),
    decreases s.len() - from,
{
    if from < s.len() && s[from] != '"' && s[from] != '\n' {
        if s[from] == '\\' {
            if has_char(s, from + 1, '"') {
                lemma_string_body_well_formed(s, from + 2);
            }
        } else {
            lemma_string_body_well_formed(s, from + 1);
        }
    }
}

/// A label is made of letters.
pub proof fn lemma_label_well_formed(s: Seq<char>, from: int)
    requires
        0 <= from <= s.len(),
    ensures
        label_at(s, from) matches Some((l, _)) ==> is_label(l),
{
    lemma_span_end_bounds(s, from, Class::Alpha);
    lemma_span_end_run(s, from, Class::Alpha);
}

/// A value that the grammar yields is well formed.
pub proof fn lemma_value_well_formed(s: Seq<char>, from: int)
    requires
        0 <= from <= s.len(),
    ensures
        value_at(s, from) matches Ok((node, _)) ==> well_formed(node),
    decreases s.len() - from, 1int,
{
    if starts_atom(s, from) {
        if has_char(s, from, '"') {
            lemma_string_body_well_formed(s, from + 1);
        } else if number_at(s, from) is Ok {
            lemma_number_alone(s, from);
        }
    } else {
        lemma_table_well_formed(s, from);
    }
}

/// The entries of a table that the grammar yields are well formed.
pub proof fn lemma_table_well_formed(s: Seq<char>, from: int)
    requires
        0 <= from <= s.len(),
    ensures
        table_at(s, from) matches Ok((entries, _)) ==> entries_well_formed(entries),
    decreases s.len() - from, 0int,
{
    let open = skip_space(s, from);
    lemma_span_end_bounds(s, from, Class::Space);
    if has_char(s, open, '{') {
        let first = skip_space(s, open + 1);
        lemma_span_end_bounds(s, open + 1, Class::Space);
        if !has_char(s, first, '}') {
            lemma_entries_well_formed(s, first);
        }
    }
}

/// The entries that the grammar yields are well formed.
pub proof fn lemma_entries_well_formed(s: Seq<char>, from: int)
    requires
        0 <= from <= s.len(),
    ensures
        entries_at(s, from) matches Ok((entries, _)) ==> entries_well_formed(entries),
    decreases s.len() - from, 3int,
{
    lemma_entry_well_formed(s, from);
    lemma_entry_bounded(s, from);
    if let Ok((entry, next)) = entry_at(s, from) {
        if has_char(s, next, '}') {
            assert(seq![entry][0] == entry);
        } else if has_char(s, next, ',') {
            lemma_entries_well_formed(s, next + 1);
            if let Ok((rest, _)) = entries_at(s, next + 1) {
                let entries = seq![entry] + rest;
                assert forall|i: int| 0 <= i < entries.len() implies label_well_formed(
                    (#[trigger] entries[i]).0,
                ) && well_formed(entries[i].1) by {
                    if i > 0 {
                        assert(entries[i] == rest[i - 1]);
                    }
                }
            }
        }
    }
}

/// An entry that the grammar yields is well formed.
pub proof fn lemma_entry_well_formed(s: Seq<char>, from: int)
    requires
        0 <= from <= s.len(),
    ensures
        entry_at(s, from) matches Ok((entry, _)) ==> label_well_formed(entry.0) && well_formed(
            entry.1,
        ),
    decreases s.len() - from, 2int,
{
    let start = skip_space(s, from);
    lemma_entry_start(s, from);
    lemma_label_well_formed(s, start);
    let at = match label_at(s, start) {
        Some((_, at)) => at,
        None => start,
    };
    lemma_value_well_formed(s, at);
}

} // verus!
