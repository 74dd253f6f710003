//! The value tree that a document parses to, and its mathematical model.

use vstd::prelude::*;
use crate::grammar::is_number;
use crate::rules::num;
use crate::text::{collect, to_chars};

verus! {

/// The model of a value: what a [`Value`] denotes, free of machine
/// representation.
pub enum Node {
    /// A table: its entries in source order.
    Object(Seq<(Option<Seq<char>>, Node)>),
    /// A string, with its escapes decoded.
    String(Seq<char>),
    /// A number, as the decimal literal that denotes it.
    Float(Seq<char>),
}

/// The model of a table: a sequence of optionally labelled values.
pub type Entries = Seq<(Option<Seq<char>>, Node)>;

/// The value of the first of `entries` that is labelled `label`.
pub open spec fn first_labelled(entries: Entries, label: Seq<char>) -> Option<Node>
    decreases entries.len(),
{
    if entries.len() == 0 {
        None
    } else if entries[0].0 == Some(label) {
        Some(entries[0].1)
    } else {
        first_labelled(entries.drop_first(), label)
    }
}

impl Node {
    /// The value of the first entry labelled `label`, where this is a table
    /// that has such an entry.
    pub open spec fn field(self, label: Seq<char>) -> Option<Node> {
        match self {
            Node::Object(entries) => first_labelled(entries, label),
            _ => None,
        }
    }
}

/// A number of the notation, held as the decimal literal that denotes it: an
/// optional minus sign, one or more digits and, optionally, a point followed
/// by one or more digits.
#[derive(Debug, PartialEq)]
pub struct Number {
    literal: String,
}

impl View for Number {
    type V = Seq<char>;

    closed spec fn view(&self) -> Seq<char> {
        self.literal@
    }
}

impl Number {
    #[verifier::type_invariant]
    spec fn well_formed(self) -> bool {
        is_number(self.literal@)
    }

    /// The number whose literal is `literal`, if `literal` is one: an optional
    /// minus sign, one or more digits and, optionally, a point followed by one
    /// or more digits.
    pub fn new(literal: &str) -> (r: Option<Number>)
        ensures
            match r {
                Some(n) => is_number(literal@) && n@ == literal@,
                None => !is_number(literal@),
            },
    {
        let input = to_chars(literal);
        match num(input.as_slice(), 0) {
            Ok((n, end)) => {
                if end == input.len() {
                    assert(input@.subrange(0, end as int) =~= input@);
                    Some(n)
                } else {
                    None
                }
            },
            Err(_) => None,
        }
    }

    /// The number whose literal is `input[from..to]`.
    pub fn scanned(input: &[char], from: usize, to: usize) -> (n: Number)
        requires
            from <= to <= input@.len(),
            is_number(input@.subrange(from as int, to as int)),
        ensures
            n@ == input@.subrange(from as int, to as int),
    {
        Number { literal: collect(input, from, to) }
    }

    /// The literal of this number.
    pub fn as_str(&self) -> (literal: &str)
        ensures
            literal@ == self@,
            is_number(self@),
    {
        proof {
            use_type_invariant(self);
        }
        self.literal.as_str()
    }
}

/// A value of the notation.
#[derive(Debug, PartialEq)]
pub enum Value {
    /// A table of optionally labelled values, in source order.
    Object(Vec<(Option<String>, Value)>),
    /// A string, with its escapes decoded.
    String(String),
    /// A number.
    Float(Number),
}

/// An ordered sequence of optionally labelled values.
pub type Table = Vec<(Option<String>, Value)>;

/// The model of an optional label.
pub open spec fn label_view(label: Option<String>) -> Option<Seq<char>> {
    match label {
        Some(l) => Some(l@),
        None => None,
    }
}

/// The model of a table: the model of each entry, in the same order.
pub open spec fn table_view(t: Seq<(Option<String>, Value)>) -> Entries
    decreases t,
{
    Seq::new(
        t.len(),
        |i: int|
            if 0 <= i < t.len() {
                (label_view(t[i].0), t[i].1.view())
            } else {
                (None, Node::Object(Seq::empty()))
            },
    )
}

impl View for Value {
    type V = Node;

    open spec fn view(&self) -> Node
        decreases self,
    {
        match self {
            Value::Object(t) => Node::Object(table_view(t@)),
            Value::String(s) => Node::String(s@),
            Value::Float(n) => Node::Float(n@),
        }
    }
}

impl Clone for Number {
    fn clone(&self) -> (n: Number)
        ensures
            n@ == self@,
    {
        proof {
            use_type_invariant(self);
        }
        Number { literal: self.literal.clone() }
    }
}

impl Clone for Value {
    fn clone(&self) -> (value: Value)
        ensures
            value@ == self@,
        decreases self,
    {
        match self {
            Value::Object(table) => {
                let mut copy: Table = Vec::new();
                let mut i: usize = 0;
                while i < table.len()
                    invariant
                        i <= table@.len(),
                        copy@.len() == i,
                        forall|j: int|
                            0 <= j < i ==> label_view(copy@[j].0) == label_view(table@[j].0)
                                && (#[trigger] copy@[j]).1@ == table@[j].1@,
                        decreases_to!(self => table@),
                    decreases table@.len() - i,
                {
                    let label = match &table[i].0 {
                        Some(l) => Some(l.clone()),
                        None => None,
                    };
                    copy.push((label, table[i].1.clone()));
                    i += 1;
                }
                assert(table_view(copy@) =~= table_view(table@));
                Value::Object(copy)
            },
            Value::String(text) => Value::String(text.clone()),
            Value::Float(number) => Value::Float(number.clone()),
        }
    }
}

impl Value {
    /// The text of this value, where it is a string.
    pub fn string(&self) -> (r: Option<&str>)
        ensures
            match r {
                Some(text) => self@ == Node::String(text@),
                None => !(self is String),
            },
    {
        match self {
            Value::String(text) => Some(text.as_str()),
            _ => None,
        }
    }

    /// This value as a number, where it is one.
    pub fn number(&self) -> (r: Option<&Number>)
        ensures
            match r {
                Some(number) => self@ == Node::Float(number@),
                None => !(self is Float),
            },
    {
        match self {
            Value::Float(number) => Some(number),
            _ => None,
        }
    }

    /// The value of the first entry labelled `label`, where this is a table
    /// that has such an entry.
    pub fn get(&self, label: &str) -> (r: Option<&Value>)
        ensures
            match r {
                Some(value) => self@.field(label@) == Some(value@),
                None => self@.field(label@) is None,
            },
    {
        match self {
            Value::Object(table) => {
                let wanted = label.to_owned();
                let ghost entries = table_view(table@);
                let mut i: usize = 0;
                assert(entries.skip(0) =~= entries);
                while i < table.len()
                    invariant
                        i <= table@.len(),
                        entries == table_view(table@),
                        self@ == Node::Object(entries),
                        wanted@ == label@,
                        first_labelled(entries, label@) == first_labelled(
                            entries.skip(i as int),
                            label@,
                        ),
                    decreases table@.len() - i,
                {
                    assert(entries.skip(i as int).drop_first() =~= entries.skip(i + 1));
                    assert(entries.skip(i as int)[0] == entries[i as int]);
                    let found = match &table[i].0 {
                        Some(l) => *l == wanted,
                        None => false,
                    };
                    if found {
                        return Some(&table[i].1);
                    }
                    i += 1;
                }
                None
            },
            _ => None,
        }
    }
}

} // verus!
