//! The grammar written with parser combinators, held against the library on
//! a list of texts.

use brace_table::parse::{parse, Table, Value};
use nom::branch::alt;
use nom::bytes::complete::{escaped_transform, tag};
use nom::character::complete::{alpha1, char, digit1, multispace0, none_of};
use nom::combinator::{opt, recognize, value as constant};
use nom::multi::separated_list0;
use nom::sequence::{delimited, pair, terminated, tuple};
use nom::IResult;

#[derive(Debug, PartialEq)]
enum Tree {
    Object(Vec<(Option<String>, Tree)>),
    String(String),
    Float(f64),
}

fn tree(value: &Value) -> Tree {
    match value {
        Value::Object(table) => Tree::Object(trees(table)),
        Value::String(text) => Tree::String(text.clone()),
        Value::Float(number) => Tree::Float(number.as_str().parse::<f64>().unwrap()),
    }
}

fn trees(table: &Table) -> Vec<(Option<String>, Tree)> {
    table
        .iter()
        .map(|(label, value)| (label.clone(), tree(value)))
        .collect()
}

fn space(input: &str) -> IResult<&str, &str> {
    multispace0(input)
}

fn number(input: &str) -> IResult<&str, Tree> {
    let (rest, literal) = recognize(tuple((
        opt(char('-')),
        digit1,
        opt(tuple((char('.'), digit1))),
    )))(input)?;
    Ok((rest, Tree::Float(literal.parse::<f64>().unwrap())))
}

fn quoted(input: &str) -> IResult<&str, Tree> {
    nom::combinator::map(
        delimited(
            char('"'),
            escaped_transform(none_of("\\\n\""), '\\', constant("\"", tag("\""))),
            char('"'),
        ),
        Tree::String,
    )(input)
}

fn entry(input: &str) -> IResult<&str, (Option<&str>, Tree)> {
    pair(
        opt(terminated(
            delimited(space, alpha1, space),
            delimited(space, char('='), space),
        )),
        delimited(space, any, space),
    )(input)
}

fn braces(input: &str) -> IResult<&str, Tree> {
    nom::combinator::map(
        delimited(
            delimited(space, char('{'), space),
            separated_list0(delimited(space, char(','), space), entry),
            delimited(space, char('}'), space),
        ),
        |entries| {
            Tree::Object(
                entries
                    .into_iter()
                    .map(|(label, value)| (label.map(|l| l.to_string()), value))
                    .collect(),
            )
        },
    )(input)
}

fn any(input: &str) -> IResult<&str, Tree> {
    alt((number, quoted, braces))(input)
}

/// The table that `text` holds from its start to its end, if it holds one.
fn combined(text: &str) -> Option<Vec<(Option<String>, Tree)>> {
    match any(text) {
        Ok(("", Tree::Object(entries))) => Some(entries),
        _ => None,
    }
}

/// Texts without an empty string in them: `escaped_transform` wants one
/// character at least.
const TEXTS: &[&str] = &[
    "{}",
    " { } ",
    "\t{\r\n}\n",
    "{a=5}",
    "{abc=5}",
    "{a=5.5}",
    "{a=-5.5}",
    "{a=0007}",
    "{a=\"hello\"}",
    "{a=\"he\\\"llo\"}",
    "{a=\"\\\"\"}",
    "{a=5,b=6}",
    "{b=6,a=5}",
    "{a=1,a=2,b=3,a=1}",
    "{{a=5}}",
    "{{},{}}",
    "{a={b={c=1}}}",
    "{ a = 5 , b = \"x y\" , { c = -1.5 } } ",
    "{\n\ta\t=\t5\t,\r\n\tb =\n\"x y\",\n\t{\n\t\tc=-1.5\n\t}\n}\n",
    "{1,2.5,-3}",
    "{\"x\",\"y\"}",
    "{a=\"h\u{e9}llo \u{2713} \u{1f600}\"}",
    "{a=\" {a=5,} \"}",
    "{z=1,2,a=\"3\",m={},\"5\"}",
    "{name=\"north gate\", position={x=-1360.5, y=-557.5}, direction=4}",
    "",
    "   ",
    "5",
    "5 ",
    "5x",
    " 5",
    "\"x\"",
    "-5.5",
    "{",
    "}",
    "{  ",
    "{{}",
    "{}}",
    "{}x",
    "{}  x",
    "{}{}",
    "{},",
    " {a=5} 5 ",
    "{a=}",
    "{a=5",
    "{a=",
    "\"abc",
    "{a=\"abc",
    "{a=\"abc}",
    "{a=\"x\\n\"}",
    "{a=\"\\\\\"}",
    "{a=\"\\",
    "{a=\"x\ny\"}",
    "{a=\"x\\\"}",
    "{abc}",
    "{abc 5}",
    "{ abc , b=5}",
    "{a=5,b}",
    "{a=b}",
    "{a1=5}",
    "{a_b=5}",
    "{a b=5}",
    "{\u{e9}=5}",
    "{=5}",
    "{a==5}",
    "{a=5,}",
    "{a=5, }",
    "{,}",
    "{,a=5}",
    "{a=5,,b=6}",
    "{a=5 b=6}",
    "{a=5;b=6}",
    "{a=5 6}",
    "{a=-}",
    "{a=--5}",
    "{a=+5}",
    "{a=.5}",
    "{a=5.}",
    "{a=5.5.5}",
    "{a=1e5}",
    "{a=- 5}",
    "{a='x'}",
    "{[]}",
    "{\u{a0}}",
    "{}\u{c}",
];

#[test]
fn library_agrees_with_combinators() {
    for text in TEXTS {
        assert_eq!(
            combined(text),
            parse(text).ok().map(|table| trees(&table)),
            "{text:?}"
        );
    }
}

#[test]
fn some_texts_are_documents() {
    assert_eq!(25, TEXTS.iter().filter(|text| parse(text).is_ok()).count());
}

#[test]
fn empty_string_is_a_string() {
    assert_eq!(
        vec![(Some("a".to_string()), Tree::String(String::new()))],
        trees(&parse("{a=\"\"}").unwrap())
    );
    assert_eq!(
        vec![(None, Tree::String(String::new())), (None, Tree::Float(1.))],
        trees(&parse("{ \"\" , 1 }").unwrap())
    );
}
