//! Whitespace outside strings does not count: what a document holds is
//! determined by its text with that whitespace taken out, and that text is
//! the canonical text of what the document holds.

use vstd::prelude::*;
use crate::canonical::{
    canonical_document, canonical_entries, canonical_entry, canonical_value, escaped,
    lemma_canonical_document_parses,
};
use crate::chars::{is_space, lemma_span_end_bounds, lemma_span_end_run, span_end, Class};
use crate::grammar::{
    document, entries_at, entry_at, has_char, label_at, lemma_entry_start, lemma_number_alone,
    number_at, skip_space, starts_atom, string_body, table_at, value_at,
};
use crate::progress::{
    lemma_entries_bounded, lemma_entry_bounded, lemma_string_body_bounded, lemma_value_bounded,
};
use crate::wellformed::lemma_value_well_formed;

verus! {

/// Where a position of a text lies with respect to the strings in it.
pub enum Mode {
    /// Outside any string.
    Outside,
    /// Inside a string.
    Inside,
    /// Inside a string, just after a backslash.
    Escaped,
}

/// The mode after the character `c`, read in `mode`.
pub open spec fn mode_next(mode: Mode, c: char) -> Mode {
    match mode {
        Mode::Outside => if c == '"' {
            Mode::Inside
        } else {
            Mode::Outside
        },
        Mode::Inside => if c == '"' {
            Mode::Outside
        } else if c == '\\' {
            Mode::Escaped
        } else {
            Mode::Inside
        },
        Mode::Escaped => Mode::Inside,
    }
}

/// Whether the character `c`, read in `mode`, counts: it is no whitespace, or
/// it stands in a string.
pub open spec fn counts(mode: Mode, c: char) -> bool {
    !(mode is Outside && is_space(c))
}

/// The characters of `s[from..to]` that count, where `s[from]` is read in
/// `mode`.
pub open spec fn squeezed(s: Seq<char>, from: int, to: int, mode: Mode) -> Seq<char>
    decreases to - from,
{
    if !(0 <= from < to <= s.len()) {
        Seq::empty()
    } else if counts(mode, s[from]) {
        seq![s[from]] + squeezed(s, from + 1, to, mode_next(mode, s[from]))
    } else {
        squeezed(s, from + 1, to, mode_next(mode, s[from]))
    }
}

/// The mode after `s[from..to]`, where `s[from]` is read in `mode`.
pub open spec fn mode_after(s: Seq<char>, from: int, to: int, mode: Mode) -> Mode
    decreases to - from,
{
    if !(0 <= from < to <= s.len()) {
        mode
    } else {
        mode_after(s, from + 1, to, mode_next(mode, s[from]))
    }
}

/// The whole of `s` without the whitespace that stands outside strings.
pub open spec fn without_space(s: Seq<char>) -> Seq<char> {
    squeezed(s, 0, s.len() as int, Mode::Outside)
}

/// A stretch of text can be squeezed in two parts.
pub proof fn lemma_squeezed_split(s: Seq<char>, from: int, mid: int, to: int, mode: Mode)
    requires
        0 <= from <= mid <= to <= s.len(),
    ensures
        squeezed(s, from, to, mode) == squeezed(s, from, mid, mode) + squeezed(
            s,
            mid,
            to,
            mode_after(s, from, mid, mode),
        ),
        mode_after(s, from, to, mode) == mode_after(s, mid, to, mode_after(s, from, mid, mode)),
    decreases mid - from,
{
    if from < mid {
        let next = mode_next(mode, s[from]);
        lemma_squeezed_split(s, from + 1, mid, to, next);
        let rest = squeezed(s, from + 1, mid, next);
        let tail = squeezed(s, mid, to, mode_after(s, from, mid, mode));
        assert((seq![s[from]] + rest) + tail =~= seq![s[from]] + (rest + tail));
    } else {
        assert(squeezed(s, from, mid, mode) + squeezed(s, mid, to, mode) =~= squeezed(
            s,
            mid,
            to,
            mode,
        ));
    }
}

/// Outside strings, a stretch of whitespace leaves nothing.
pub proof fn lemma_squeezed_space(s: Seq<char>, from: int, to: int)
    requires
        0 <= from <= to <= s.len(),
        forall|i: int| from <= i < to ==> is_space(#[trigger] s[i]),
    ensures
        squeezed(s, from, to, Mode::Outside) == Seq::<char>::empty(),
        mode_after(s, from, to, Mode::Outside) == Mode::Outside,
    decreases to - from,
{
    if from < to {
        assert(is_space(s[from]));
        lemma_squeezed_space(s, from + 1, to);
    }
}

/// Outside strings, a stretch without whitespace and without double quotes
/// is left as it is.
pub proof fn lemma_squeezed_plain(s: Seq<char>, from: int, to: int)
    requires
        0 <= from <= to <= s.len(),
        forall|i: int| from <= i < to ==> !is_space(#[trigger] s[i]) && s[i] != '"',
    ensures
        squeezed(s, from, to, Mode::Outside) == s.subrange(from, to),
        mode_after(s, from, to, Mode::Outside) == Mode::Outside,
    decreases to - from,
{
    if from < to {
        assert(!is_space(s[from]) && s[from] != '"');
        lemma_squeezed_plain(s, from + 1, to);
        assert(seq![s[from]] + s.subrange(from + 1, to) =~= s.subrange(from, to));
    } else {
        assert(s.subrange(from, to) =~= Seq::<char>::empty());
    }
}

/// The whitespace that is skipped at `from` leaves nothing: the text from
/// `from` on is squeezed as the text after that whitespace is.
pub proof fn lemma_squeezed_skip(s: Seq<char>, from: int, to: int)
    requires
        0 <= from <= s.len(),
        skip_space(s, from) <= to <= s.len(),
    ensures
        from <= skip_space(s, from),
        squeezed(s, from, to, Mode::Outside) == squeezed(
            s,
            skip_space(s, from),
            to,
            Mode::Outside,
        ),
        mode_after(s, from, to, Mode::Outside) == mode_after(
            s,
            skip_space(s, from),
            to,
            Mode::Outside,
        ),
{
    let mid = skip_space(s, from);
    lemma_span_end_bounds(s, from, Class::Space);
    lemma_span_end_run(s, from, Class::Space);
    lemma_squeezed_space(s, from, mid);
    lemma_squeezed_split(s, from, mid, to, Mode::Outside);
    assert(Seq::<char>::empty() + squeezed(s, mid, to, Mode::Outside) =~= squeezed(
        s,
        mid,
        to,
        Mode::Outside,
    ));
}

/// A number is left as it is.
pub proof fn lemma_squeezed_number(s: Seq<char>, from: int)
    requires
        0 <= from <= s.len(),
        number_at(s, from) is Ok,
    ensures
        squeezed(s, from, number_at(s, from)->Ok_0, Mode::Outside) == s.subrange(
            from,
            number_at(s, from)->Ok_0,
        ),
        mode_after(s, from, number_at(s, from)->Ok_0, Mode::Outside) == Mode::Outside,
{
    let end = number_at(s, from)->Ok_0;
    let first = if has_char(s, from, '-') {
        from + 1
    } else {
        from
    };
    let whole = span_end(s, first, Class::Digit);
    lemma_number_alone(s, from);
    lemma_span_end_bounds(s, first, Class::Digit);
    lemma_span_end_run(s, first, Class::Digit);
    if whole < s.len() {
        lemma_span_end_bounds(s, whole + 1, Class::Digit);
        lemma_span_end_run(s, whole + 1, Class::Digit);
    }
    assert forall|i: int| from <= i < end implies !is_space(#[trigger] s[i]) && s[i] != '"' by {
        if i >= first && i != whole {
            assert(Class::Digit.has(s[i]));
        }
    }
    lemma_squeezed_plain(s, from, end);
}

/// The body of a string is left as it stands in the text, and that is its
/// decoded text with a backslash put before each double quote.
pub proof fn lemma_squeezed_string(s: Seq<char>, from: int)
    requires
        0 <= from <= s.len(),
        string_body(s, from) is Ok,
    ensures
        squeezed(s, from, string_body(s, from)->Ok_0.1, Mode::Inside) == escaped(
            string_body(s, from)->Ok_0.0,
        ) + seq!['"'],
        mode_after(s, from, string_body(s, from)->Ok_0.1, Mode::Inside) == Mode::Outside,
    decreases s.len() - from,
{
    let (text, end) = string_body(s, from)->Ok_0;
    lemma_string_body_bounded(s, from);
    if s[from] == '"' {
        assert(escaped(text) =~= Seq::<char>::empty());
        assert(squeezed(s, from + 1, end, Mode::Outside) =~= Seq::<char>::empty());
        assert(seq![s[from]] + Seq::<char>::empty() =~= Seq::<char>::empty() + seq!['"']);
        assert(mode_after(s, from + 1, end, Mode::Outside) == Mode::Outside);
    } else if s[from] == '\\' {
        let (rest, _) = string_body(s, from + 2)->Ok_0;
        lemma_string_body_bounded(s, from + 2);
        lemma_squeezed_string(s, from + 2);
        assert(text.drop_first() =~= rest);
        let tail = squeezed(s, from + 2, end, Mode::Inside);
        assert(squeezed(s, from + 1, end, Mode::Escaped) == seq![s[from + 1]] + tail);
        assert(mode_after(s, from + 1, end, Mode::Escaped) == mode_after(
            s,
            from + 2,
            end,
            Mode::Inside,
        ));
        assert(seq!['\\'] + (seq!['"'] + tail) =~= (seq!['\\', '"'] + escaped(rest)) + seq!['"']);
    } else {
        let (rest, _) = string_body(s, from + 1)->Ok_0;
        lemma_string_body_bounded(s, from + 1);
        lemma_squeezed_string(s, from + 1);
        assert(text.drop_first() =~= rest);
        let tail = squeezed(s, from + 1, end, Mode::Inside);
        assert(seq![s[from]] + tail =~= (seq![s[from]] + escaped(rest)) + seq!['"']);
    }
}

/// Outside strings, a character that is neither whitespace nor a double
/// quote is left as it is.
pub proof fn lemma_squeezed_char(s: Seq<char>, from: int, to: int)
    requires
        0 <= from < to <= s.len(),
        !is_space(s[from]),
        s[from] != '"',
    ensures
        squeezed(s, from, to, Mode::Outside) == seq![s[from]] + squeezed(
            s,
            from + 1,
            to,
            Mode::Outside,
        ),
        mode_after(s, from, to, Mode::Outside) == mode_after(s, from + 1, to, Mode::Outside),
{
}

/// What a value is read from, squeezed, is the canonical text of the value.
pub proof fn lemma_squeezed_value(s: Seq<char>, from: int)
    requires
        0 <= from <= s.len(),
        value_at(s, from) is Ok,
    ensures
        squeezed(s, from, value_at(s, from)->Ok_0.1, Mode::Outside) == canonical_value(
            value_at(s, from)->Ok_0.0,
        ),
        mode_after(s, from, value_at(s, from)->Ok_0.1, Mode::Outside) == Mode::Outside,
    decreases s.len() - from, 1int,
{
    let (node, end) = value_at(s, from)->Ok_0;
    lemma_value_bounded(s, from);
    if starts_atom(s, from) {
        if has_char(s, from, '"') {
            let text = string_body(s, from + 1)->Ok_0.0;
            lemma_squeezed_string(s, from + 1);
            assert(seq!['"'] + (escaped(text) + seq!['"']) =~= seq!['"'] + escaped(text) + seq![
                '"',
            ]);
        } else {
            lemma_squeezed_number(s, from);
        }
    } else {
        lemma_squeezed_table(s, from);
    }
}

/// What a table is read from, squeezed, is the canonical text of the table.
pub proof fn lemma_squeezed_table(s: Seq<char>, from: int)
    requires
        0 <= from <= s.len(),
        table_at(s, from) is Ok,
    ensures
        squeezed(s, from, table_at(s, from)->Ok_0.1, Mode::Outside) == seq!['{']
            + canonical_entries(table_at(s, from)->Ok_0.0) + seq!['}'],
        mode_after(s, from, table_at(s, from)->Ok_0.1, Mode::Outside) == Mode::Outside,
    decreases s.len() - from, 0int,
{
    let (entries, end) = table_at(s, from)->Ok_0;
    let open = skip_space(s, from);
    let first = skip_space(s, open + 1);
    lemma_span_end_bounds(s, from, Class::Space);
    lemma_span_end_bounds(s, open + 1, Class::Space);
    if has_char(s, first, '}') {
        lemma_span_end_bounds(s, first + 1, Class::Space);
        lemma_squeezed_skip(s, from, end);
        lemma_squeezed_char(s, open, end);
        lemma_squeezed_skip(s, open + 1, end);
        lemma_squeezed_char(s, first, end);
        lemma_squeezed_skip(s, first + 1, end);
        assert(squeezed(s, end, end, Mode::Outside) =~= Seq::<char>::empty());
        assert(seq!['{'] + (seq!['}'] + Seq::<char>::empty()) =~= seq!['{'] + canonical_entries(
            entries,
        ) + seq!['}']);
    } else {
        lemma_entry_bounded(s, first);
        lemma_entries_bounded(s, first);
        lemma_squeezed_entries(s, first);
        lemma_squeezed_skip(s, from, end);
        lemma_squeezed_char(s, open, end);
        lemma_squeezed_skip(s, open + 1, end);
        assert(seq!['{'] + (canonical_entries(entries) + seq!['}']) =~= seq!['{']
            + canonical_entries(entries) + seq!['}']);
    }
}

/// What the entries of a table and its closing brace are read from,
/// squeezed, is the canonical text of the entries and a closing brace.
pub proof fn lemma_squeezed_entries(s: Seq<char>, from: int)
    requires
        0 <= from <= s.len(),
        entries_at(s, from) is Ok,
    ensures
        squeezed(s, from, entries_at(s, from)->Ok_0.1, Mode::Outside) == canonical_entries(
            entries_at(s, from)->Ok_0.0,
        ) + seq!['}'],
        mode_after(s, from, entries_at(s, from)->Ok_0.1, Mode::Outside) == Mode::Outside,
        entries_at(s, from)->Ok_0.0.len() > 0,
    decreases s.len() - from, 3int,
{
    let (entries, end) = entries_at(s, from)->Ok_0;
    let (entry, next) = entry_at(s, from)->Ok_0;
    lemma_entry_bounded(s, from);
    lemma_entries_bounded(s, from);
    lemma_squeezed_entry(s, from);
    let head = canonical_entry(entry);
    if has_char(s, next, '}') {
        lemma_span_end_bounds(s, next + 1, Class::Space);
        lemma_squeezed_split(s, from, next, end, Mode::Outside);
        lemma_squeezed_char(s, next, end);
        lemma_squeezed_skip(s, next + 1, end);
        assert(squeezed(s, end, end, Mode::Outside) =~= Seq::<char>::empty());
        assert(entries[0] == entry);
        assert(head + (seq!['}'] + Seq::<char>::empty()) =~= head + seq!['}']);
    } else {
        let rest = entries_at(s, next + 1)->Ok_0.0;
        lemma_entries_bounded(s, next + 1);
        lemma_squeezed_split(s, from, next, end, Mode::Outside);
        lemma_squeezed_char(s, next, end);
        lemma_squeezed_entries(s, next + 1);
        assert(entries[0] == entry);
        assert(entries.drop_first() =~= rest);
        assert(head + (seq![','] + (canonical_entries(rest) + seq!['}'])) =~= (head + seq![',']
            + canonical_entries(rest)) + seq!['}']);
    }
}

/// What an entry is read from, squeezed, is the canonical text of the entry.
pub proof fn lemma_squeezed_entry(s: Seq<char>, from: int)
    requires
        0 <= from <= s.len(),
        entry_at(s, from) is Ok,
    ensures
        squeezed(s, from, entry_at(s, from)->Ok_0.1, Mode::Outside) == canonical_entry(
            entry_at(s, from)->Ok_0.0,
        ),
        mode_after(s, from, entry_at(s, from)->Ok_0.1, Mode::Outside) == Mode::Outside,
    decreases s.len() - from, 2int,
{
    let (entry, next) = entry_at(s, from)->Ok_0;
    let start = skip_space(s, from);
    lemma_entry_start(s, from);
    lemma_entry_bounded(s, from);
    let at = match label_at(s, start) {
        Some((_, at)) => at,
        None => start,
    };
    let (node, end) = value_at(s, at)->Ok_0;
    lemma_span_end_bounds(s, start, Class::Alpha);
    lemma_span_end_bounds(s, span_end(s, start, Class::Alpha), Class::Space);
    lemma_span_end_bounds(s, skip_space(s, span_end(s, start, Class::Alpha)) + 1, Class::Space);
    lemma_value_bounded(s, at);
    lemma_span_end_bounds(s, end, Class::Space);
    // The value, and the whitespace after it.
    lemma_squeezed_value(s, at);
    lemma_squeezed_split(s, at, end, next, Mode::Outside);
    lemma_squeezed_skip(s, end, next);
    assert(squeezed(s, next, next, Mode::Outside) =~= Seq::<char>::empty());
    assert(canonical_value(node) + Seq::<char>::empty() =~= canonical_value(node));
    // The whitespace before the entry, and the label if there is one.
    lemma_squeezed_skip(s, from, next);
    if let Some((label, _)) = label_at(s, start) {
        let letters = span_end(s, start, Class::Alpha);
        let eq = skip_space(s, letters);
        lemma_span_end_run(s, start, Class::Alpha);
        assert forall|i: int| start <= i < letters implies !is_space(#[trigger] s[i]) && s[i]
            != '"' by {
            assert(Class::Alpha.has(s[i]));
        }
        lemma_squeezed_plain(s, start, letters);
        lemma_squeezed_split(s, start, letters, next, Mode::Outside);
        lemma_squeezed_skip(s, letters, next);
        lemma_squeezed_char(s, eq, next);
        lemma_squeezed_skip(s, eq + 1, next);
        assert(label + (seq!['='] + canonical_value(node)) =~= label + seq!['=']
            + canonical_value(node));
    }
}

/// A document without the whitespace outside its strings is the canonical
/// text of what the document holds.
pub proof fn lemma_document_without_space(s: Seq<char>)
    ensures
        document(s) matches Ok(entries) ==> without_space(s) == canonical_document(entries),
{
    if document(s) is Ok {
        lemma_squeezed_value(s, 0);
    }
}

/// Whitespace outside strings does not count: two documents that are the
/// same but for such whitespace hold the same.
pub proof fn lemma_whitespace_does_not_count(s: Seq<char>, t: Seq<char>)
    requires
        document(s) is Ok,
        document(t) is Ok,
        without_space(s) == without_space(t),
    ensures
        document(s) == document(t),
{
    lemma_document_without_space(s);
    lemma_document_without_space(t);
    lemma_value_well_formed(s, 0);
    lemma_value_well_formed(t, 0);
    lemma_canonical_document_parses(document(s)->Ok_0);
    lemma_canonical_document_parses(document(t)->Ok_0);
}

} // verus!
