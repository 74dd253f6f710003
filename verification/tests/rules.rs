use brace_table::chars::{scan, Class};
use brace_table::parse::{Number, Value};
use brace_table::rules::{atom, label, maybe_named_value, num, string, table, value, ws};
use brace_table::text::{collect, to_chars};

fn chars(text: &str) -> Vec<char> {
    text.chars().collect()
}

fn number(literal: &str) -> Value {
    Value::Float(Number::new(literal).unwrap())
}

fn quoted(text: &str) -> Value {
    Value::String(text.to_string())
}

#[test]
fn character_classes() {
    for c in [' ', '\t', '\r', '\n'] {
        assert!(Class::Space.contains(c));
        assert!(!Class::Digit.contains(c));
        assert!(!Class::Alpha.contains(c));
    }
    for c in ['\u{b}', '\u{c}', '\u{a0}', '\u{2003}', 'a', '0', '{'] {
        assert!(!Class::Space.contains(c));
    }
    for c in '0'..='9' {
        assert!(Class::Digit.contains(c));
        assert!(!Class::Alpha.contains(c));
    }
    for c in ['/', ':', 'a', '-', '.', '\u{661}', '\u{ff11}'] {
        assert!(!Class::Digit.contains(c));
    }
    for c in ('a'..='z').chain('A'..='Z') {
        assert!(Class::Alpha.contains(c));
        assert!(!Class::Digit.contains(c));
    }
    for c in ['@', '[', '`', '{', '_', '0', '\u{e9}', '\u{3b1}'] {
        assert!(!Class::Alpha.contains(c));
    }
}

#[test]
fn scanning_runs() {
    let input = chars("  ab12 \n");
    assert_eq!(2, scan(&input, 0, Class::Space));
    assert_eq!(2, scan(&input, 1, Class::Space));
    assert_eq!(2, scan(&input, 2, Class::Space));
    assert_eq!(4, scan(&input, 2, Class::Alpha));
    assert_eq!(4, scan(&input, 4, Class::Alpha));
    assert_eq!(6, scan(&input, 4, Class::Digit));
    assert_eq!(8, scan(&input, 6, Class::Space));
    assert_eq!(8, scan(&input, 8, Class::Space));
    assert_eq!(0, scan(&[], 0, Class::Digit));
}

#[test]
fn text_to_characters_and_back() {
    assert_eq!(Vec::<char>::new(), to_chars(""));
    assert_eq!(vec!['a', '\u{e9}', '\u{1f600}', '"'], to_chars("a\u{e9}\u{1f600}\""));
    let input = chars("h\u{e9}llo w\u{f6}rld");
    assert_eq!("h\u{e9}llo w\u{f6}rld", collect(&input, 0, input.len()));
    assert_eq!("llo", collect(&input, 2, 5));
    assert_eq!("", collect(&input, 3, 3));
    assert_eq!("", collect(&input, input.len(), input.len()));
}

#[test]
fn skipping_whitespace() {
    let input = chars(" \t\r\nx  ");
    assert_eq!(4, ws(&input, 0));
    assert_eq!(4, ws(&input, 4));
    assert_eq!(7, ws(&input, 5));
    assert_eq!(7, ws(&input, 7));
}

#[test]
fn reading_numbers() {
    assert_eq!(Ok((Number::new("5").unwrap(), 1)), num(&chars("5"), 0));
    assert_eq!(Ok((Number::new("-12.5").unwrap(), 5)), num(&chars("-12.5,"), 0));
    assert_eq!(Ok((Number::new("12").unwrap(), 5)), num(&chars("a=-12.b"), 3));
    assert_eq!(Ok((Number::new("-12").unwrap(), 5)), num(&chars("a=-12.b"), 2));
    assert_eq!(Ok((Number::new("5").unwrap(), 1)), num(&chars("5."), 0));
    assert_eq!(Ok((Number::new("5").unwrap(), 1)), num(&chars("5.."), 0));
    assert_eq!(Ok((Number::new("5.5").unwrap(), 3)), num(&chars("5.5.5"), 0));
    assert_eq!(Ok((Number::new("007.700").unwrap(), 7)), num(&chars("007.700 "), 0));
    assert_eq!(Err(0), num(&chars(""), 0));
    assert_eq!(Err(0), num(&chars("a"), 0));
    assert_eq!(Err(0), num(&chars(".5"), 0));
    assert_eq!(Err(0), num(&chars(" 5"), 0));
    assert_eq!(Err(1), num(&chars("-"), 0));
    assert_eq!(Err(1), num(&chars("-.5"), 0));
    assert_eq!(Err(1), num(&chars("--5"), 0));
    assert_eq!(Err(3), num(&chars("5.5"), 3));
}

#[test]
fn reading_strings() {
    assert_eq!(Ok(("hello".to_string(), 7)), string(&chars("\"hello\""), 0));
    assert_eq!(Ok(("he\"llo".to_string(), 9)), string(&chars("\"he\\\"llo\""), 0));
    assert_eq!(Ok((String::new(), 2)), string(&chars("\"\""), 0));
    assert_eq!(Ok(("b".to_string(), 6)), string(&chars("\"a\"\"b\""), 3));
    assert_eq!(Ok(("a".to_string(), 3)), string(&chars("\"a\"\"b\""), 0));
    assert_eq!(Err(0), string(&chars("x\"a\""), 0));
    assert_eq!(Err(3), string(&chars("\"ab"), 0));
    assert_eq!(Err(3), string(&chars("\"ab"), 3));
}

#[test]
fn reading_atoms() {
    assert_eq!(Ok((number("5"), 1)), atom(&chars("5"), 0));
    assert_eq!(Ok((quoted("5"), 3)), atom(&chars("\"5\""), 0));
    assert_eq!(Err(0), atom(&chars("{}"), 0));
    assert_eq!(Err(0), atom(&chars(" 5"), 0));
    assert_eq!(Err(2), atom(&chars("\"5"), 0));
}

#[test]
fn reading_labels() {
    assert_eq!(Some(("a".to_string(), 2)), label(&chars("a=5"), 0));
    assert_eq!(Some(("abc".to_string(), 8)), label(&chars("abc  =  5"), 0));
    assert_eq!(Some(("abc".to_string(), 5)), label(&chars("abc ="), 0));
    assert_eq!(Some(("bc".to_string(), 4)), label(&chars("abc=5"), 1));
    assert_eq!(None, label(&chars("abc"), 0));
    assert_eq!(None, label(&chars("abc 5"), 0));
    assert_eq!(None, label(&chars(" a=5"), 0));
    assert_eq!(None, label(&chars("=5"), 0));
    assert_eq!(None, label(&chars("a1=5"), 0));
    assert_eq!(None, label(&chars(""), 0));
}

#[test]
fn reading_entries() {
    assert_eq!(
        Ok(((Some("a".to_string()), number("5")), 3)),
        maybe_named_value(&chars("a=5"), 0)
    );
    assert_eq!(
        Ok(((Some("a".to_string()), number("5")), 9)),
        maybe_named_value(&chars("  a = 5  ,"), 0)
    );
    assert_eq!(Ok(((None, number("5")), 3)), maybe_named_value(&chars(" 5 }"), 0));
    assert_eq!(
        Ok(((None, Value::Object(vec![])), 4)),
        maybe_named_value(&chars(" {} "), 0)
    );
    assert_eq!(Err(0), maybe_named_value(&chars("a"), 0));
    assert_eq!(Err(2), maybe_named_value(&chars("  a 5"), 0));
    assert_eq!(Err(2), maybe_named_value(&chars("a="), 0));
    assert_eq!(Err(3), maybe_named_value(&chars("a= ,"), 0));
}

#[test]
fn reading_tables() {
    assert_eq!(Ok((vec![], 2)), table(&chars("{}"), 0));
    assert_eq!(Ok((vec![], 7)), table(&chars("  { }  x"), 0));
    assert_eq!(
        Ok((
            vec![
                (Some("a".to_string()), number("5")),
                (None, quoted("x")),
                (None, Value::Object(vec![(None, number("-1"))])),
            ],
            17
        )),
        table(&chars("{a=5, \"x\", {-1}} ,"), 0)
    );
    assert_eq!(Ok((vec![(None, number("-1"))], 15)), table(&chars("{a=5, \"x\", {-1}}"), 10));
    assert_eq!(Err(0), table(&chars("5"), 0));
    assert_eq!(Err(2), table(&chars("  "), 0));
    assert_eq!(Err(1), table(&chars("{"), 0));
    assert_eq!(Err(4), table(&chars("{a=5"), 0));
    assert_eq!(Err(5), table(&chars("{a=5,}"), 0));
}

#[test]
fn reading_values() {
    assert_eq!(Ok((number("5"), 1)), value(&chars("5 "), 0));
    assert_eq!(Ok((quoted("x"), 3)), value(&chars("\"x\" "), 0));
    assert_eq!(Ok((Value::Object(vec![]), 4)), value(&chars(" {} "), 0));
    assert_eq!(Err(1), value(&chars(" 5"), 0));
    assert_eq!(Err(0), value(&chars("abc"), 0));
    assert_eq!(Err(0), value(&chars(""), 0));
}
