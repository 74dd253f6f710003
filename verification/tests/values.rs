use brace_table::parse::{parse, Number, Value};

fn number(literal: &str) -> Value {
    Value::Float(Number::new(literal).unwrap())
}

#[test]
fn number_literals() {
    for literal in ["0", "5", "-5", "5.5", "-5.5", "0007", "00.00", "-0", "1234567890.0987654321"] {
        assert_eq!(literal, Number::new(literal).unwrap().as_str());
    }
    for literal in [
        "", "-", ".", "5.", ".5", "-.5", "+5", "5.5.5", "5 ", " 5", "1e5", "0x10", "--5", "5-",
        "NaN", "inf", "infinity", "\u{661}", "5\n",
    ] {
        assert_eq!(None, Number::new(literal), "{literal:?}");
    }
}

#[test]
fn number_literals_convert() {
    for (literal, expected) in [
        ("0", 0.0),
        ("5", 5.0),
        ("-5", -5.0),
        ("5.5", 5.5),
        ("0007", 7.0),
        ("-1360.5", -1360.5),
        ("0.1", 0.1),
    ] {
        let number = Number::new(literal).unwrap();
        assert_eq!(expected, number.as_str().parse::<f64>().unwrap());
    }
}

#[test]
fn numbers_are_equal_by_literal() {
    assert_eq!(Number::new("5"), Number::new("5"));
    assert_ne!(Number::new("5"), Number::new("5.0"));
    assert_ne!(Number::new("5"), Number::new("05"));
}

#[test]
fn parsed_numbers_are_literals() {
    assert_eq!(
        Ok(vec![
            (Some("a".to_string()), number("5")),
            (Some("b".to_string()), number("-0.50")),
        ]),
        parse("{a=5,b=-0.50}")
    );
}

#[test]
fn get_finds_the_first_entry() {
    let table = Value::Object(parse("{a=1,b=\"x\",a=2,{c=3},d={a=4}}").unwrap());
    assert_eq!(Some(&number("1")), table.get("a"));
    assert_eq!(Some(&Value::String("x".to_string())), table.get("b"));
    assert_eq!(None, table.get("c"));
    assert_eq!(None, table.get(""));
    assert_eq!(None, table.get("A"));
    assert_eq!(None, table.get("ab"));
    assert_eq!(Some(&number("4")), table.get("d").unwrap().get("a"));
    assert_eq!(None, table.get("d").unwrap().get("d"));
}

#[test]
fn get_on_other_values() {
    assert_eq!(None, number("5").get("a"));
    assert_eq!(None, Value::String("a".to_string()).get("a"));
    assert_eq!(None, Value::Object(vec![]).get("a"));
    assert_eq!(None, Value::Object(vec![(None, number("5"))]).get("a"));
}

#[test]
fn string_and_number() {
    let text = Value::String("he\"llo".to_string());
    let five = number("5");
    let table = Value::Object(vec![]);
    assert_eq!(Some("he\"llo"), text.string());
    assert_eq!(None, five.string());
    assert_eq!(None, table.string());
    assert_eq!(Some("5"), five.number().map(|n| n.as_str()));
    assert_eq!(None, text.number());
    assert_eq!(None, table.number());
}

#[test]
fn clone_is_equal() {
    let table = Value::Object(
        parse("{a=1,b=\"x\\\"y\",a=2,{c=3,{},\"\"},d={a=-4.25}}").unwrap(),
    );
    let copy = table.clone();
    assert_eq!(table, copy);
    assert_eq!(format!("{table:?}"), format!("{copy:?}"));
    let five = Number::new("5").unwrap();
    assert_eq!(five, five.clone());
}
