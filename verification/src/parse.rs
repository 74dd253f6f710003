//! Reading a whole text.

use vstd::prelude::*;
use crate::documents::lemma_document_is_table;
use crate::grammar::{document, string_at};
use crate::rules;
use crate::text::to_chars;
use crate::value::table_view;
use crate::wellformed::entries_well_formed;

pub use crate::error::ParseError;
pub use crate::value::{Node, Number, Table, Value};

verus! {

/// Reads `s` as a document: one table, with nothing but whitespace around it.
///
/// Returns the entries of that table in the order in which they are written,
/// or the reason why `s` is no document. Nothing is returned for a text of
/// which only a part can be read.
///
/// In what is returned each label is made of letters, each number is a
/// decimal literal, and no string holds a backslash or a line feed.
pub fn parse(s: &str) -> (r: Result<Table, ParseError>)
    ensures
        match document(s@) {
            Ok(entries) => r matches Ok(table) && table_view(table@) == entries,
            Err(e) => r matches Err(error) && error == e,
        },
        r matches Ok(table) ==> entries_well_formed(table_view(table@)),
{
    proof {
        lemma_document_is_table(s@);
    }
    let input = to_chars(s);
    match rules::value(input.as_slice(), 0) {
        Err(at) => Err(ParseError::Syntax { position: at }),
        Ok((Value::Object(table), end)) => {
            if end == input.len() {
                Ok(table)
            } else {
                Err(ParseError::TrailingData { position: end })
            }
        },
        Ok(_) => Err(ParseError::NonObject),
    }
}

/// Reads a string at the start of `input`.
///
/// Returns what follows the string in `input`, and the string with its
/// escapes decoded.
pub fn string(input: &str) -> (r: Result<(&str, Value), ParseError>)
    ensures
        match string_at(input@, 0) {
            Ok((text, end)) => r matches Ok((rest, value)) && value@ == Node::String(text)
                && rest@ == input@.subrange(end, input@.len() as int),
            Err(at) => r matches Err(error) && error == (ParseError::Syntax {
                position: at as usize,
            }),
        },
{
    let chars = to_chars(input);
    match rules::string(chars.as_slice(), 0) {
        Ok((text, end)) => Ok((input.substring_char(end, chars.len()), Value::String(text))),
        Err(at) => Err(ParseError::Syntax { position: at }),
    }
}

} // verus!
