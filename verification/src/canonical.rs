//! The canonical text of a table, and the proof that reading it gives the
//! table back.
//!
//! The canonical text holds no whitespace. Each number stands as its literal,
//! each string between double quotes with a backslash before each double quote
//! in it, each table between braces with commas between its entries, and each
//! label before its value with `=` between the two.

use vstd::prelude::*;
use crate::chars::{
    is_alpha, is_digit, is_space, lemma_span_end_bounds, lemma_span_end_is, lemma_span_end_run,
    span_end, Class,
};
use crate::error::ParseError;
use crate::grammar::{
    document, entries_at, entry_at, has_char, is_number, label_at, number_at, skip_space,
    string_body, value_at,
};
use crate::value::{Entries, Node};
use crate::wellformed::{
    entries_well_formed, is_text, label_well_formed, lemma_value_well_formed, well_formed,
};

verus! {

/// `t` with a backslash put before each double quote.
pub open spec fn escaped(t: Seq<char>) -> Seq<char>
    decreases t.len(),
{
    if t.len() == 0 {
        Seq::empty()
    } else if t[0] == '"' {
        seq!['\\', '"'] + escaped(t.drop_first())
    } else {
        seq![t[0]] + escaped(t.drop_first())
    }
}

/// The canonical text of a value.
pub open spec fn canonical_value(node: Node) -> Seq<char>
    decreases node,
{
    match node {
        Node::Float(t) => t,
        Node::String(t) => seq!['"'] + escaped(t) + seq!['"'],
        Node::Object(entries) => seq!['{'] + canonical_entries(entries) + seq!['}'],
    }
}

/// The canonical text of the entries of a table: that of each entry, with a
/// comma between one and the next.
pub open spec fn canonical_entries(entries: Entries) -> Seq<char>
    decreases entries,
{
    if entries.len() == 0 {
        Seq::empty()
    } else if entries.len() == 1 {
        canonical_entry(entries[0])
    } else {
        canonical_entry(entries[0]) + seq![','] + canonical_entries(entries.drop_first())
    }
}

/// The canonical text of one entry: its value, after its label and `=` if it
/// has a label.
pub open spec fn canonical_entry(entry: (Option<Seq<char>>, Node)) -> Seq<char>
    decreases entry,
{
    match entry.0 {
        Some(label) => label + seq!['='] + canonical_value(entry.1),
        None => canonical_value(entry.1),
    }
}

/// The canonical text of the document that holds `entries`.
pub open spec fn canonical_document(entries: Entries) -> Seq<char> {
    canonical_value(Node::Object(entries))
}

/// Whether the text `s` holds the characters `c` from `at` on.
pub open spec fn holds(s: Seq<char>, at: int, c: Seq<char>) -> bool {
    &&& 0 <= at
    &&& at + c.len() <= s.len()
    &&& forall|i: int| 0 <= i < c.len() ==> s[at + i] == #[trigger] c[i]
}

/// Where a text holds `a + b`, it holds `a` and, after it, `b`.
pub proof fn lemma_holds_split(s: Seq<char>, at: int, a: Seq<char>, b: Seq<char>)
    requires
        holds(s, at, a + b),
    ensures
        holds(s, at, a),
        holds(s, at + a.len(), b),
{
    let c = a + b;
    assert forall|i: int| 0 <= i < a.len() implies s[at + i] == #[trigger] a[i] by {
        assert(c[i] == a[i]);
    }
    assert forall|i: int| 0 <= i < b.len() implies s[at + a.len() + i] == #[trigger] b[i] by {
        assert(c[a.len() + i] == b[i]);
    }
}

/// Whether position `at` of `s` ends a token: the text ends there, or goes
/// on with a comma or a closing brace.
pub open spec fn closes(s: Seq<char>, at: int) -> bool {
    at == s.len() || has_char(s, at, ',') || has_char(s, at, '}')
}

/// A number that a text holds, with no digit and no point after it, is read
/// whole.
pub proof fn lemma_number_in_text(s: Seq<char>, from: int, t: Seq<char>)
    requires
        is_number(t),
        holds(s, from, t),
        from + t.len() < s.len() ==> !is_digit(s[from + t.len()]) && s[from + t.len()] != '.',
    ensures
        number_at(s, from) == Ok::<int, int>(from + t.len()),
        s.subrange(from, from + t.len()) == t,
        t.len() > 0,
        t[0] == '-' || is_digit(t[0]),
{
    let first = if has_char(t, 0, '-') {
        1int
    } else {
        0int
    };
    let whole = span_end(t, first, Class::Digit);
    lemma_span_end_bounds(t, first, Class::Digit);
    lemma_span_end_run(t, first, Class::Digit);
    assert(t[first] == s[from + first]);
    assert(t[0] == s[from + 0]);
    assert(has_char(s, from, '-') == has_char(t, 0, '-'));
    assert forall|i: int| from + first <= i < from + whole implies Class::Digit.has(
        #[trigger] s[i],
    ) by {
        assert(s[i] == t[i - from]);
    }
    if whole < t.len() {
        assert(t[whole] == s[from + whole]);
        lemma_span_end_is(s, from + first, from + whole, Class::Digit);
        let fraction = span_end(t, whole + 1, Class::Digit);
        lemma_span_end_bounds(t, whole + 1, Class::Digit);
        lemma_span_end_run(t, whole + 1, Class::Digit);
        assert forall|i: int| from + whole + 1 <= i < from + fraction implies Class::Digit.has(
            #[trigger] s[i],
        ) by {
            assert(s[i] == t[i - from]);
        }
        lemma_span_end_is(s, from + whole + 1, from + fraction, Class::Digit);
    } else {
        lemma_span_end_is(s, from + first, from + whole, Class::Digit);
    }
    assert(s.subrange(from, from + t.len()) =~= t);
}

/// A string in canonical form that a text holds is read back decoded: where
/// the text holds `escaped(t)` and a double quote after it, the body of
/// a string read there is `t`.
pub proof fn lemma_string_in_text(s: Seq<char>, from: int, t: Seq<char>)
    requires
        is_text(t),
        holds(s, from, escaped(t) + seq!['"']),
    ensures
        string_body(s, from) == Ok::<(Seq<char>, int), int>((t, from + escaped(t).len() + 1)),
    decreases t.len(),
{
    let c = escaped(t) + seq!['"'];
    assert(c[0] == s[from + 0]);
    if t.len() == 0 {
        assert(t =~= Seq::empty());
    } else {
        let rest = t.drop_first();
        assert forall|i: int| 0 <= i < rest.len() implies #[trigger] rest[i] != '\\' && rest[i]
            != '\n' by {
            assert(rest[i] == t[i + 1]);
        }
        let head = if t[0] == '"' {
            seq!['\\', '"']
        } else {
            seq![t[0]]
        };
        assert(c =~= head + (escaped(rest) + seq!['"']));
        lemma_holds_split(s, from, head, escaped(rest) + seq!['"']);
        lemma_string_in_text(s, from + head.len(), rest);
        assert(head[0] == s[from + 0]);
        if t[0] == '"' {
            assert(head[1] == s[from + 1]);
            assert(seq!['"'] + rest =~= t);
        } else {
            assert(seq![t[0]] + rest =~= t);
        }
    }
}

/// Whether `c` starts as a value does: with a minus sign, a digit, a double
/// quote or an opening brace.
pub open spec fn starts_value(c: Seq<char>) -> bool {
    c.len() > 0 && (c[0] == '-' || is_digit(c[0]) || c[0] == '"' || c[0] == '{')
}

/// The canonical text of a well-formed value starts as a value does.
pub proof fn lemma_canonical_value_starts(node: Node)
    requires
        well_formed(node),
    ensures
        starts_value(canonical_value(node)),
{
    match node {
        Node::Float(t) => {
            lemma_number_in_text(t, 0, t);
        },
        Node::String(t) => {},
        Node::Object(entries) => {},
    }
}

/// The canonical text of a well-formed entry starts with a letter or as a
/// value does.
pub proof fn lemma_canonical_entry_starts(entry: (Option<Seq<char>>, Node))
    requires
        label_well_formed(entry.0),
        well_formed(entry.1),
    ensures
        canonical_entry(entry).len() > 0,
        is_alpha(canonical_entry(entry)[0]) || starts_value(canonical_entry(entry)),
{
    lemma_canonical_value_starts(entry.1);
}

/// No whitespace is skipped at a position that closes a token.
pub proof fn lemma_closes_no_space(s: Seq<char>, at: int)
    requires
        at == s.len() || (0 <= at < s.len() && !is_space(s[at])),
    ensures
        skip_space(s, at) == at,
{
}

/// The canonical text of a well-formed value, where a text holds it and the
/// text ends after it or goes on with a comma or a closing brace, is read as
/// that value.
pub proof fn lemma_value_in_text(s: Seq<char>, from: int, node: Node)
    requires
        well_formed(node),
        holds(s, from, canonical_value(node)),
        closes(s, from + canonical_value(node).len()),
    ensures
        value_at(s, from) == Ok::<(Node, int), int>((node, from + canonical_value(node).len())),
    decreases node,
{
    let c = canonical_value(node);
    let end = from + c.len();
    lemma_canonical_value_starts(node);
    assert(s[from + 0] == c[0]);
    match node {
        Node::Float(t) => {
            lemma_number_in_text(s, from, t);
        },
        Node::String(t) => {
            assert(c =~= seq!['"'] + (escaped(t) + seq!['"']));
            lemma_holds_split(s, from, seq!['"'], escaped(t) + seq!['"']);
            lemma_string_in_text(s, from + 1, t);
        },
        Node::Object(entries) => {
            let inner = canonical_entries(entries) + seq!['}'];
            assert(c =~= seq!['{'] + inner);
            lemma_holds_split(s, from, seq!['{'], inner);
            assert(skip_space(s, from) == from);
            assert(inner[0] == s[from + 1 + 0]);
            lemma_closes_no_space(s, end);
            if entries.len() == 0 {
                assert(entries =~= Seq::empty());
                assert(skip_space(s, from + 1) == from + 1);
            } else {
                lemma_entries_well_formed_first(entries);
                lemma_canonical_entry_starts(entries[0]);
                lemma_canonical_entries_first(entries);
                assert(skip_space(s, from + 1) == from + 1);
                lemma_entries_in_text(s, from + 1, entries);
            }
        },
    }
}

/// The first of well-formed entries is well formed, and so are the others.
pub proof fn lemma_entries_well_formed_first(entries: Entries)
    requires
        entries.len() > 0,
        entries_well_formed(entries),
    ensures
        label_well_formed(entries[0].0),
        well_formed(entries[0].1),
        entries_well_formed(entries.drop_first()),
{
    let rest = entries.drop_first();
    assert forall|i: int| 0 <= i < rest.len() implies label_well_formed((#[trigger] rest[i]).0)
        && well_formed(rest[i].1) by {
        assert(rest[i] == entries[i + 1]);
    }
}

/// The canonical text of entries starts with that of the first entry.
pub proof fn lemma_canonical_entries_first(entries: Entries)
    requires
        entries.len() > 0,
        canonical_entry(entries[0]).len() > 0,
    ensures
        canonical_entries(entries).len() > 0,
        canonical_entries(entries)[0] == canonical_entry(entries[0])[0],
{
}

/// The canonical text of well-formed entries and the closing brace after it,
/// where a text holds them and no whitespace follows, are read as those
/// entries.
pub proof fn lemma_entries_in_text(s: Seq<char>, from: int, entries: Entries)
    requires
        entries.len() > 0,
        entries_well_formed(entries),
        holds(s, from, canonical_entries(entries) + seq!['}']),
        from + canonical_entries(entries).len() + 1 == s.len() || !is_space(
            s[from + canonical_entries(entries).len() + 1],
        ),
    ensures
        entries_at(s, from) == Ok::<(Entries, int), int>(
            (entries, from + canonical_entries(entries).len() + 1),
        ),
    decreases entries,
{
    let entry = entries[0];
    let rest = entries.drop_first();
    let head = canonical_entry(entry);
    let end = from + canonical_entries(entries).len() + 1;
    let tail = if entries.len() == 1 {
        seq!['}']
    } else {
        seq![','] + (canonical_entries(rest) + seq!['}'])
    };
    lemma_entries_well_formed_first(entries);
    assert(canonical_entries(entries) + seq!['}'] =~= head + tail);
    lemma_holds_split(s, from, head, tail);
    let next = from + head.len();
    assert(tail[0] == s[next + 0]);
    lemma_entry_in_text(s, from, entry);
    if entries.len() == 1 {
        lemma_closes_no_space(s, end);
        assert(seq![entry] =~= entries);
    } else {
        lemma_holds_split(s, next, seq![','], canonical_entries(rest) + seq!['}']);
        lemma_entries_in_text(s, next + 1, rest);
        assert(seq![entry] + rest =~= entries);
    }
}

/// The canonical text of a well-formed entry, where a text holds it and goes
/// on with a comma or a closing brace, is read as that entry.
pub proof fn lemma_entry_in_text(s: Seq<char>, from: int, entry: (Option<Seq<char>>, Node))
    requires
        label_well_formed(entry.0),
        well_formed(entry.1),
        holds(s, from, canonical_entry(entry)),
        closes(s, from + canonical_entry(entry).len()),
    ensures
        entry_at(s, from) == Ok::<((Option<Seq<char>>, Node), int), int>(
            (entry, from + canonical_entry(entry).len()),
        ),
    decreases entry,
{
    let c = canonical_entry(entry);
    let value = canonical_value(entry.1);
    let end = from + c.len();
    lemma_canonical_entry_starts(entry);
    lemma_canonical_value_starts(entry.1);
    assert(c[0] == s[from + 0]);
    assert(skip_space(s, from) == from);
    lemma_closes_no_space(s, end);
    match entry.0 {
        Some(label) => {
            assert(c =~= label + (seq!['='] + value));
            lemma_holds_split(s, from, label, seq!['='] + value);
            let eq = from + label.len();
            lemma_holds_split(s, eq, seq!['='], value);
            assert(seq!['='][0] == s[eq + 0]);
            assert(value[0] == s[eq + 1 + 0]);
            assert forall|i: int| from <= i < eq implies Class::Alpha.has(#[trigger] s[i]) by {
                assert(s[i] == label[i - from]);
            }
            lemma_span_end_is(s, from, eq, Class::Alpha);
            assert(skip_space(s, eq) == eq);
            assert(skip_space(s, eq + 1) == eq + 1);
            assert(s.subrange(from, eq) =~= label);
            assert(label_at(s, from) == Some((label, eq + 1)));
            lemma_value_in_text(s, eq + 1, entry.1);
        },
        None => {
            assert(span_end(s, from, Class::Alpha) == from);
            assert(label_at(s, from) is None);
            lemma_value_in_text(s, from, entry.1);
        },
    }
}

/// Reading the canonical text of a well-formed table gives the table back:
/// the same entries, in the same order.
pub proof fn lemma_canonical_document_parses(entries: Entries)
    requires
        entries_well_formed(entries),
    ensures
        document(canonical_document(entries)) == Ok::<Entries, ParseError>(entries),
{
    let s = canonical_document(entries);
    assert forall|i: int| 0 <= i < s.len() implies s[0 + i] == #[trigger] s[i] by {}
    lemma_value_in_text(s, 0, Node::Object(entries));
}

/// Reading a document, writing what it holds in canonical form and reading
/// that gives what the document holds.
pub proof fn lemma_reread(s: Seq<char>)
    ensures
        document(s) matches Ok(entries) ==> document(canonical_document(entries)) == Ok::<
            Entries,
            ParseError,
        >(entries),
{
    lemma_value_well_formed(s, 0);
    if let Ok(entries) = document(s) {
        lemma_canonical_document_parses(entries);
    }
}

} // verus!
