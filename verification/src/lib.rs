//! A parser for a small brace-delimited notation of nested, optionally
//! labelled tables of numbers and quoted strings.
//!
//! ```text
//! { name = "north gate", position = { x = -1360.5, y = -557.5 }, 4, {} }
//! ```
//!
//! A document is one table. [`parse::parse`] reads it into a [`value::Table`]:
//! the entries in the order in which they are written, each a
//! [`value::Value`] with or without a label. A number is kept as the decimal
//! literal that denotes it ([`value::Number`]); a string is kept decoded.
//!
//! What a text denotes is defined in [`grammar`], over sequences of
//! characters, and [`rules`] holds one recogniser for each rule of the
//! grammar, proved to return what the grammar says. [`progress`],
//! [`wellformed`], [`locality`], [`documents`], [`canonical`] and
//! [`whitespace`] prove what holds of the grammar itself: that every rule
//! moves forward, that what is read is well formed, that text after a value
//! does not change it, which texts are no documents and why, that the
//! canonical text of a table is read back as that table, and that a document
//! without its whitespace is the canonical text of what it holds.

pub mod canonical;
pub mod chars;
pub mod documents;
pub mod error;
pub mod grammar;
pub mod locality;
pub mod parse;
pub mod progress;
pub mod rules;
pub mod text;
pub mod value;
pub mod wellformed;
pub mod whitespace;
