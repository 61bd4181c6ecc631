use si_macros::directive::is_plain_value;
use si_macros::error::ParseError;
use si_macros::properties::{parse_unit_directive, synthesize, UnitProperties};
use si_macros::tokenizer::{parse_segment, strip_delimiters, tokenize, ParameterPair};

fn pair(key: &str, value: &str) -> ParameterPair {
    ParameterPair { key: key.to_string(), value: value.to_string() }
}

fn unit(name: &str, quantity: &str, symbol: &str, singular: &str, plural: &str) -> UnitProperties {
    UnitProperties {
        name: name.to_string(),
        quantity: quantity.to_string(),
        symbol: symbol.to_string(),
        singular: singular.to_string(),
        plural: plural.to_string(),
    }
}

fn missing(param: &str) -> ParseError {
    ParseError::ParamMissing { param: param.to_string() }
}

#[test]
fn it_works() {
    let parsed = UnitProperties::parse(
        "C".to_string(),
        "( quantity = A , symbol = \"c\" , singular = \"c\" )",
    );
    assert_eq!(parsed, Ok(unit("C", "A", "c", "c", "cs")));
}

#[test]
fn complete_directive_gives_the_supplied_values() {
    let parsed = parse_unit_directive(
        "Metre".to_string(),
        "(quantity = Length , symbol = \"m\" , singular = \"metre\" , plural = \"meters\")",
    );
    assert_eq!(parsed, Ok(unit("Metre", "Length", "m", "metre", "meters")));
}

#[test]
fn order_of_parameters_does_not_matter() {
    let parsed = parse_unit_directive(
        "Metre".to_string(),
        "( plural = \"metres\" , singular = \"metre\" , symbol = \"m\" , quantity = Length )",
    );
    assert_eq!(parsed, Ok(unit("Metre", "Length", "m", "metre", "metres")));
}

#[test]
fn plural_of_c_is_cs() {
    let parsed =
        parse_unit_directive("C".to_string(), "(quantity = A , symbol = \"c\" , singular = \"c\")");
    assert_eq!(parsed.unwrap().plural, "cs");
    assert_eq!(UnitProperties::infer_plural("c"), "cs");
}

#[test]
fn plural_of_metre_is_metres() {
    let parsed = parse_unit_directive(
        "Metre".to_string(),
        "(quantity = Length , symbol = \"m\" , singular = \"metre\")",
    );
    assert_eq!(parsed.unwrap().plural, "metres");
    assert_eq!(UnitProperties::infer_plural("metre"), "metres");
}

#[test]
fn plural_is_not_corrected() {
    assert_eq!(UnitProperties::infer_plural("bus"), "buss");
    assert_eq!(UnitProperties::infer_plural(""), "s");
}

#[test]
fn missing_singular_is_reported() {
    let parsed = parse_unit_directive("C".to_string(), "(quantity = A , symbol = \"c\")");
    assert_eq!(parsed, Err(missing("singular")));
}

#[test]
fn missing_quantity_is_reported() {
    let parsed = parse_unit_directive("C".to_string(), "(symbol = \"c\" , singular = \"c\")");
    assert_eq!(parsed, Err(missing("quantity")));
}

#[test]
fn missing_symbol_is_reported() {
    let parsed = parse_unit_directive("C".to_string(), "(quantity = A , singular = \"c\")");
    assert_eq!(parsed, Err(missing("symbol")));
}

#[test]
fn missing_parameters_are_reported_in_a_fixed_order() {
    assert_eq!(synthesize("C".to_string(), vec![]), Err(missing("singular")));
    assert_eq!(synthesize("C".to_string(), vec![pair("plural", "cs")]), Err(missing("singular")));
    assert_eq!(synthesize("C".to_string(), vec![pair("symbol", "c")]), Err(missing("singular")));
    assert_eq!(synthesize("C".to_string(), vec![pair("singular", "c")]), Err(missing("quantity")));
    assert_eq!(
        synthesize("C".to_string(), vec![pair("singular", "c"), pair("quantity", "A")]),
        Err(missing("symbol"))
    );
}

#[test]
fn unknown_key_is_reported() {
    let parsed = parse_unit_directive(
        "C".to_string(),
        "(quantity = A , symbol = \"c\" , singular = \"c\" , foo = \"bar\")",
    );
    assert_eq!(parsed, Err(ParseError::UnexpectedParam { param: "foo".to_string() }));
    let built = synthesize(
        "C".to_string(),
        vec![pair("quantity", "A"), pair("symbol", "c"), pair("singular", "c"), pair("foo", "bar")],
    );
    assert_eq!(built, Err(ParseError::UnexpectedParam { param: "foo".to_string() }));
}

#[test]
fn first_unknown_key_is_reported_before_missing_ones() {
    let built = synthesize("C".to_string(), vec![pair("foo", "1"), pair("bar", "2")]);
    assert_eq!(built, Err(ParseError::UnexpectedParam { param: "foo".to_string() }));
}

#[test]
fn key_is_taken_verbatim() {
    let parsed = parse_unit_directive(
        "C".to_string(),
        "(quantity = A ,  symbol = \"c\" , singular = \"c\")",
    );
    assert_eq!(parsed, Err(ParseError::UnexpectedParam { param: " symbol".to_string() }));
}

#[test]
fn segment_without_equals_is_reported() {
    let parsed = parse_unit_directive("C".to_string(), "(quantity)");
    assert_eq!(parsed, Err(ParseError::ExpectedStringIdent { after: "=".to_string() }));
    assert_eq!(
        tokenize("(quantity)"),
        Err(ParseError::ExpectedStringIdent { after: "=".to_string() })
    );
}

#[test]
fn segment_with_two_equals_is_reported() {
    let parsed = parse_unit_directive("C".to_string(), "(quantity = A = B)");
    assert_eq!(parsed, Err(ParseError::UnexpectedToken { token: "B".to_string() }));
}

#[test]
fn third_part_of_a_segment_is_the_unexpected_token() {
    assert_eq!(
        parse_segment("a = b = c = d"),
        Err(ParseError::UnexpectedToken { token: "c".to_string() })
    );
}

#[test]
fn faults_of_form_come_first() {
    let parsed = parse_unit_directive("C".to_string(), "(foo = 1 , quantity)");
    assert_eq!(parsed, Err(ParseError::ExpectedStringIdent { after: "=".to_string() }));
    let parsed = parse_unit_directive("C".to_string(), "(a = b = c , quantity)");
    assert_eq!(parsed, Err(ParseError::UnexpectedToken { token: "c".to_string() }));
}

#[test]
fn later_value_replaces_earlier_one() {
    let parsed = parse_unit_directive(
        "C".to_string(),
        "(quantity = A , quantity = B , symbol = \"c\" , singular = \"c\")",
    );
    assert_eq!(parsed, Ok(unit("C", "B", "c", "c", "cs")));
}

#[test]
fn empty_input_fails_as_a_degenerate_segment() {
    let expected = Err(ParseError::ExpectedStringIdent { after: "=".to_string() });
    assert_eq!(tokenize(""), expected);
    assert_eq!(tokenize("("), expected);
    assert_eq!(tokenize("()"), expected);
    assert_eq!(tokenize("(  )"), expected);
}

#[test]
fn delimiters_and_whitespace_are_stripped() {
    assert_eq!(strip_delimiters("( a = b )"), "a = b");
    assert_eq!(strip_delimiters("(a = b)"), "a = b");
    assert_eq!(strip_delimiters("  (\ta = b\n)\r\n"), "a = b");
    assert_eq!(strip_delimiters("[a = b]"), "a = b");
    assert_eq!(strip_delimiters("((a))"), "(a)");
    assert_eq!(strip_delimiters("x"), "");
    assert_eq!(strip_delimiters(""), "");
}

#[test]
fn tokenize_keeps_the_order() {
    assert_eq!(
        tokenize("( symbol = \"m\" , quantity = Length , symbol = \"x\" )"),
        Ok(vec![pair("symbol", "m"), pair("quantity", "Length"), pair("symbol", "x")])
    );
}

#[test]
fn quotes_are_stripped_at_the_ends_only() {
    assert_eq!(parse_segment("symbol = \"a\"b\""), Ok(pair("symbol", "a\"b")));
    assert_eq!(parse_segment("symbol = \"\"m\"\""), Ok(pair("symbol", "m")));
    assert_eq!(parse_segment("symbol = \""), Ok(pair("symbol", "")));
    assert_eq!(parse_segment("symbol = m"), Ok(pair("symbol", "m")));
    assert_eq!(parse_segment("\"symbol\" = m"), Ok(pair("\"symbol\"", "m")));
}

#[test]
fn separators_are_literal() {
    assert_eq!(parse_segment("a=b"), Err(ParseError::ExpectedStringIdent { after: "=".to_string() }));
    assert_eq!(tokenize("(a = b,c = d)"), Err(ParseError::UnexpectedToken { token: "d".to_string() }));
    assert_eq!(tokenize("(a = \"x , y\")"), Err(ParseError::ExpectedStringIdent { after: "=".to_string() }));
    assert_eq!(tokenize("(a = \"x,y\")"), Ok(vec![pair("a", "x,y")]));
}

#[test]
fn characters_beyond_ascii_are_kept() {
    let parsed = parse_unit_directive(
        "Ohm".to_string(),
        "( quantity = Resistance , symbol = \"Ω\" , singular = \"ohm\" )",
    );
    assert_eq!(parsed, Ok(unit("Ohm", "Resistance", "Ω", "ohm", "ohms")));
}

#[test]
fn record_is_written_with_all_four_parameters() {
    let metre = unit("Metre", "Length", "m", "metre", "metres");
    assert_eq!(
        metre.to_directive(),
        "( quantity = \"Length\" , symbol = \"m\" , singular = \"metre\" , plural = \"metres\" )"
    );
}

#[test]
fn written_record_is_read_back() {
    let records = [
        unit("Metre", "Length", "m", "metre", "metres"),
        unit("Foot", "Length", "ft", "foot", "feet"),
        unit("Ohm", "Resistance", "Ω", "ohm", "ohms"),
        unit("Odd", "a,b", "x =y", "p ,q", ""),
        unit("", "", "", "", ""),
    ];
    for record in records {
        let text = record.to_directive();
        assert_eq!(parse_unit_directive(record.name.clone(), &text), Ok(record));
    }
}

#[test]
fn record_with_a_separator_in_a_field_is_not_read_back() {
    let record = unit("Odd", "Length", "a , b", "metre", "metres");
    let text = record.to_directive();
    assert_eq!(
        parse_unit_directive(record.name.clone(), &text),
        Err(ParseError::ExpectedStringIdent { after: "=".to_string() })
    );
    let record = unit("Odd", "Length", "\"m", "metre", "metres");
    let text = record.to_directive();
    assert_eq!(
        parse_unit_directive(record.name.clone(), &text),
        Ok(unit("Odd", "Length", "m", "metre", "metres"))
    );
}

#[test]
fn plain_values_hold_no_separator_and_no_outer_quote() {
    assert!(is_plain_value("metre"));
    assert!(is_plain_value(""));
    assert!(is_plain_value("a,b"));
    assert!(is_plain_value("a=b"));
    assert!(is_plain_value(" ,"));
    assert!(is_plain_value("a\"b"));
    assert!(!is_plain_value("a , b"));
    assert!(!is_plain_value("a = b"));
    assert!(!is_plain_value(" , "));
    assert!(!is_plain_value("\"a"));
    assert!(!is_plain_value("a\""));
    assert!(!is_plain_value("\""));
}

#[test]
fn record_is_read_back_exactly_when_it_is_plain() {
    let values = ["m", "", "a , b", "a = b", "\"m", "m\"", "a,b", " ,", "= ", "Ω"];
    for quantity in values {
        for symbol in values {
            let record = unit("U", quantity, symbol, "metre", "metres");
            let plain = record.is_plain();
            assert_eq!(plain, is_plain_value(quantity) && is_plain_value(symbol));
            let text = record.to_directive();
            assert_eq!(parse_unit_directive("U".to_string(), &text) == Ok(record), plain);
        }
    }
    for singular in values {
        for plural in values {
            let record = unit("U", "Length", "m", singular, plural);
            let plain = record.is_plain();
            let text = record.to_directive();
            assert_eq!(parse_unit_directive("U".to_string(), &text) == Ok(record), plain);
        }
    }
}

#[test]
fn parsed_record_is_plain() {
    let texts = [
        "( quantity = A , symbol = \"c\" , singular = \"c\" )",
        "( quantity = \"\"A\" , symbol = a=b , singular = ,x , plural = \"x\"y\" )",
        "(quantity = A ,  , symbol =  , singular = )",
    ];
    for text in texts {
        if let Ok(record) = parse_unit_directive("U".to_string(), text) {
            assert!(record.is_plain());
        }
    }
    let record = parse_unit_directive(
        "U".to_string(),
        "( quantity = \"\"A\" , symbol = a=b , singular = ,x , plural = \"x\"y\" )",
    );
    assert_eq!(record, Ok(unit("U", "A", "a=b", ",x", "x\"y")));
}
