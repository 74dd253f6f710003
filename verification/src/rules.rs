//! The recognisers of the grammar's rules, on a text held as a slice of
//! characters.
//!
//! Each takes the text and the position to read at, and returns what
//! [`crate::grammar`] says the text holds there.

use vstd::prelude::*;
use crate::chars::{scan, Class};
use crate::grammar::{
    atom_at, entries_at, entry_at, label_at, lemma_number_alone, number_at, skip_space,
    string_at, string_body, table_at, value_at,
};
use crate::text::collect;
use crate::value::{label_view, table_view, Entries, Node, Number, Table, Value};

verus! {

/// Whether the outcome `r` of a recogniser is the outcome `m` that the
/// grammar gives, for a rule that yields a value.
pub open spec fn agrees(r: Result<(Value, usize), usize>, m: Result<(Node, int), int>) -> bool {
    match (r, m) {
        (Ok((value, end)), Ok((node, e))) => value@ == node && end == e,
        (Err(at), Err(a)) => at == a,
        _ => false,
    }
}

/// The same for a rule that yields a table.
pub open spec fn table_agrees(r: Result<(Table, usize), usize>, m: Result<(Entries, int), int>) -> bool {
    match (r, m) {
        (Ok((table, end)), Ok((entries, e))) => table_view(table@) == entries && end == e,
        (Err(at), Err(a)) => at == a,
        _ => false,
    }
}

/// The same for a rule that yields one entry of a table.
pub open spec fn entry_agrees(
    r: Result<((Option<String>, Value), usize), usize>,
    m: Result<((Option<Seq<char>>, Node), int), int>,
) -> bool {
    match (r, m) {
        (Ok((entry, end)), Ok((e, e_end))) => (label_view(entry.0), entry.1@) == e && end == e_end,
        (Err(at), Err(a)) => at == a,
        _ => false,
    }
}

/// The same for a rule that yields text.
pub open spec fn text_agrees(r: Result<(String, usize), usize>, m: Result<(Seq<char>, int), int>) -> bool {
    match (r, m) {
        (Ok((text, end)), Ok((t, e))) => text@ == t && end == e,
        (Err(at), Err(a)) => at == a,
        _ => false,
    }
}

/// Whether the outcome `r` of reading at `from` in a text of `len` characters
/// stays within the text: a match ends after `from`, a mismatch is found at or
/// after `from`.
pub open spec fn within<T>(r: Result<(T, usize), usize>, from: usize, len: nat) -> bool {
    match r {
        Ok((_, end)) => from < end <= len,
        Err(at) => from <= at <= len,
    }
}

/// The outcome `m` with `head` put before what it yields.
pub open spec fn after<T>(head: Seq<T>, m: Result<(Seq<T>, int), int>) -> Result<(Seq<T>, int), int> {
    match m {
        Ok((rest, end)) => Ok((head + rest, end)),
        Err(at) => Err(at),
    }
}

/// Skips whitespace: the position of the first character at or after `from`
/// that is no whitespace.
pub fn ws(input: &[char], from: usize) -> (end: usize)
    requires
        from <= input@.len(),
    ensures
        end == skip_space(input@, from as int),
        from <= end <= input@.len(),
{
    scan(input, from, Class::Space)
}

/// Reads a number at `from`.
pub fn num(input: &[char], from: usize) -> (r: Result<(Number, usize), usize>)
    requires
        from <= input@.len(),
    ensures
        match number_at(input@, from as int) {
            Ok(e) => r matches Ok((n, end)) && end == e && n@ == input@.subrange(from as int, e),
            Err(a) => r matches Err(at) && at == a,
        },
        within(r, from, input@.len()),
{
    let first = if from < input.len() && input[from] == '-' {
        from + 1
    } else {
        from
    };
    let whole = scan(input, first, Class::Digit);
    if whole == first {
        return Err(first);
    }
    let end = if whole < input.len() && input[whole] == '.' {
        let fraction = scan(input, whole + 1, Class::Digit);
        if fraction > whole + 1 {
            fraction
        } else {
            whole
        }
    } else {
        whole
    };
    proof {
        lemma_number_alone(input@, from as int);
    }
    Ok((Number::scanned(input, from, end), end))
}

/// Reads a string at `from` and decodes its escapes.
pub fn string(input: &[char], from: usize) -> (r: Result<(String, usize), usize>)
    requires
        from <= input@.len(),
    ensures
        text_agrees(r, string_at(input@, from as int)),
        within(r, from, input@.len()),
{
    if from >= input.len() || input[from] != '"' {
        return Err(from);
    }
    let mut text = String::new();
    let mut i: usize = from + 1;
    loop
        invariant
            from < i <= input@.len(),
            string_at(input@, from as int) == after(text@, string_body(input@, i as int)),
        decreases input@.len() - i,
    {
        if i >= input.len() {
            return Err(i);
        }
        let c = input[i];
        let ghost before = text@;
        if c == '"' {
            assert(before + Seq::<char>::empty() =~= before);
            return Ok((text, i + 1));
        } else if c == '\n' {
            return Err(i);
        } else if c == '\\' {
            if i + 1 < input.len() && input[i + 1] == '"' {
                text.push('"');
                proof {
                    let rest = string_body(input@, i + 2);
                    if let Ok((tail, _)) = rest {
                        assert(before + (seq!['"'] + tail) =~= text@ + tail);
                    }
                }
                i += 2;
            } else {
                return Err(i + 1);
            }
        } else {
            text.push(c);
            proof {
                let rest = string_body(input@, i + 1);
                if let Ok((tail, _)) = rest {
                    assert(before + (seq![c] + tail) =~= text@ + tail);
                }
            }
            i += 1;
        }
    }
}

/// Reads an atom, a number or a string, at `from`.
pub fn atom(input: &[char], from: usize) -> (r: Result<(Value, usize), usize>)
    requires
        from <= input@.len(),
    ensures
        agrees(r, atom_at(input@, from as int)),
        within(r, from, input@.len()),
{
    if from < input.len() && input[from] == '"' {
        match string(input, from) {
            Ok((text, end)) => Ok((Value::String(text), end)),
            Err(at) => Err(at),
        }
    } else {
        match num(input, from) {
            Ok((number, end)) => Ok((Value::Float(number), end)),
            Err(at) => Err(at),
        }
    }
}

/// Reads a label at `from`, the `=` after it and the whitespace around that
/// `=`.
pub fn label(input: &[char], from: usize) -> (r: Option<(String, usize)>)
    requires
        from <= input@.len(),
    ensures
        match label_at(input@, from as int) {
            Some((l, a)) => r matches Some((text, at)) && text@ == l && at == a,
            None => r is None,
        },
        r matches Some((_, at)) ==> from < at <= input@.len(),
{
    let end = scan(input, from, Class::Alpha);
    if end == from {
        return None;
    }
    let eq = ws(input, end);
    if eq < input.len() && input[eq] == '=' {
        let at = ws(input, eq + 1);
        Some((collect(input, from, end), at))
    } else {
        None
    }
}

/// Reads an entry of a table at `from`: a value, with a label and `=` before
/// it or without, and the whitespace on either side.
pub fn maybe_named_value(input: &[char], from: usize) -> (r: Result<
    ((Option<String>, Value), usize),
    usize,
>)
    requires
        from <= input@.len(),
    ensures
        entry_agrees(r, entry_at(input@, from as int)),
        within(r, from, input@.len()),
    decreases input@.len() - from, 2int,
{
    let start = ws(input, from);
    let (name, at) = match label(input, start) {
        Some((name, at)) => (Some(name), at),
        None => (None, start),
    };
    match value(input, at) {
        Ok((v, end)) => Ok(((name, v), ws(input, end))),
        Err(at) => Err(at),
    }
}

/// Reads a table at `from`, with the whitespace before its opening brace and
/// after its closing brace.
pub fn table(input: &[char], from: usize) -> (r: Result<(Table, usize), usize>)
    requires
        from <= input@.len(),
    ensures
        table_agrees(r, table_at(input@, from as int)),
        within(r, from, input@.len()),
    decreases input@.len() - from, 0int,
{
    let open = ws(input, from);
    if open >= input.len() || input[open] != '{' {
        return Err(open);
    }
    let mut entries: Table = Vec::new();
    let mut at: usize = ws(input, open + 1);
    assert(table_view(entries@) =~= Seq::empty());
    if at < input.len() && input[at] == '}' {
        return Ok((entries, ws(input, at + 1)));
    }
    loop
        invariant
            from < at <= input@.len(),
            table_at(input@, from as int) == after(
                table_view(entries@),
                entries_at(input@, at as int),
            ),
        decreases input@.len() - at,
    {
        let ghost before = table_view(entries@);
        match maybe_named_value(input, at) {
            Err(e) => {
                return Err(e);
            },
            Ok((entry, next)) => {
                let ghost e = (label_view(entry.0), entry.1@);
                entries.push(entry);
                assert(table_view(entries@) =~= before.push(e));
                if next < input.len() && input[next] == '}' {
                    assert(before + seq![e] =~= before.push(e));
                    return Ok((entries, ws(input, next + 1)));
                } else if next < input.len() && input[next] == ',' {
                    proof {
                        if let Ok((rest, _)) = entries_at(input@, next + 1) {
                            assert(before + (seq![e] + rest) =~= before.push(e) + rest);
                        }
                    }
                    at = next + 1;
                } else {
                    return Err(next);
                }
            },
        }
    }
}

/// Reads a value at `from`: an atom that starts there, or else a table.
pub fn value(input: &[char], from: usize) -> (r: Result<(Value, usize), usize>)
    requires
        from <= input@.len(),
    ensures
        agrees(r, value_at(input@, from as int)),
        within(r, from, input@.len()),
    decreases input@.len() - from, 1int,
{
    if from < input.len() && (input[from] == '-' || Class::Digit.contains(input[from])
        || input[from] == '"') {
        atom(input, from)
    } else {
        match table(input, from) {
            Ok((entries, end)) => Ok((Value::Object(entries), end)),
            Err(at) => Err(at),
        }
    }
}

} // verus!
