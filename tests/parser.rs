use json_stat::parser::{
    accept_array, accept_false, accept_null, accept_number, accept_object, accept_string,
    accept_true, accept_value, accept_whitespace, parse_document, prepare_environment, JsonValue,
};

fn num(text: &str) -> JsonValue {
    JsonValue::NUMBER(text.to_string())
}

fn member(key: &str, value: JsonValue) -> (String, JsonValue) {
    (key.to_string(), value)
}

#[test]
fn check_true_constant() {
    let mut cursor = prepare_environment("true".to_string());
    let result = accept_true(&mut cursor);
    assert!(result.is_ok());
    if let Ok(jval) = result {
        assert_eq!(jval, JsonValue::TRUE);
    }
}

#[test]
fn check_false_constant() {
    let mut cursor = prepare_environment("false".to_string());
    let result = accept_false(&mut cursor);
    assert!(result.is_ok());
    if let Ok(jval) = result {
        assert_eq!(jval, JsonValue::FALSE);
    }
}

#[test]
fn check_null_constant() {
    let mut cursor = prepare_environment("null".to_string());
    let result = accept_null(&mut cursor);
    assert!(result.is_ok());
    if let Ok(jval) = result {
        assert_eq!(jval, JsonValue::NULL);
    }
}

#[test]
fn check_strings() {
    let cases = [
        "some long value string SLDFJNSDLFN",
        "\\/multi\\b line\\n stri ng000 111\\r with\\t control seqE\\\\UNces",
        "\\u2764\\ubBbB\\u27af\\u2Ef4\\u2cD4\\u2AA4",
        "                                        ",
    ];
    for expected in cases {
        let stream = format!("\"{}\"", expected);
        let mut cursor = prepare_environment(stream);
        let result = accept_string(&mut cursor);
        assert!(result.is_ok());
        if let Ok(jval) = result {
            assert_eq!(jval, JsonValue::STRING(expected.to_string()))
        }
    }
}

#[test]
fn check_numbers() {
    let cases = [
        0f64,
        1f64,
        -1f64,
        -1000f64,
        -5f64,
        17f64,
        3333f64,
        1345.15f64,
        0.1e-05f64,
    ];
    for expected in cases {
        let stream = format!("{}", expected);
        let mut cursor = prepare_environment(stream.clone());
        let result = accept_number(&mut cursor);
        assert!(result.is_ok());
        if let Ok(jval) = result {
            assert_eq!(jval, JsonValue::NUMBER(stream.clone()));
            assert_eq!(stream.parse::<f64>().unwrap(), expected);
        }
    }
}

#[test]
fn check_whitespaces() {
    let cases = [
        "",
        " ",
        "                 ",
        "\r\r\r   \r",
        "\t\t\t  \t",
        "\n\n\n\n\n\r\r\r\t\t\t    ",
    ];
    for stream in cases {
        let mut cursor = prepare_environment(stream.to_string());
        accept_whitespace(&mut cursor);
        assert_eq!(cursor.remaining(), 0);
    }
}

#[test]
fn check_arrays() {
    let cases = [
        ("[1]", JsonValue::ARRAY(vec![num("1")])),
        ("[ 1, 2, 3 ]", JsonValue::ARRAY(vec![num("1"), num("2"), num("3")])),
    ];
    for (stream, expected) in cases {
        let mut cursor = prepare_environment(stream.to_string());
        let result = accept_array(&mut cursor);
        assert!(result.is_ok());
        if let Ok(jval) = result {
            assert_eq!(jval, expected);
        }
    }
}

#[test]
fn check_object() {
    let stream = "{
    \"3.18\": {
        \"3.18.1\": {
            \"CVE-2014-8559\": {
                \"cmt_msg\": \"crypto: prefix module autoloading with \\\"crypto-\\\"\", 
                \"cmt_id\": \"679829c2e50332832c2e85b12ec851a423ad9892\"
            }
        }
    }
}"
    .to_string();
    let mut cursor = prepare_environment(stream);
    let result = accept_object(&mut cursor);
    assert!(result.is_ok());
    if let Ok(jval) = result {
        assert_eq!(
            jval,
            JsonValue::OBJECT(vec![member(
                "3.18",
                JsonValue::OBJECT(vec![member(
                    "3.18.1",
                    JsonValue::OBJECT(vec![member(
                        "CVE-2014-8559",
                        JsonValue::OBJECT(vec![
                            member(
                                "cmt_msg",
                                JsonValue::STRING(
                                    "crypto: prefix module autoloading with \\\"crypto-\\\""
                                        .to_string()
                                )
                            ),
                            member(
                                "cmt_id",
                                JsonValue::STRING(
                                    "679829c2e50332832c2e85b12ec851a423ad9892".to_string()
                                )
                            ),
                        ])
                    )])
                )])
            )])
        );
    }
}

#[test]
fn document_kinds_follow_the_first_character() {
    let cases = [
        ("  {\"a\": 1}", "object"),
        ("\n[1]", "array"),
        ("\"x\"", "string"),
        ("-2.5e3", "number"),
        ("7", "number"),
        ("true", "true"),
        ("\tfalse", "false"),
        ("null", "null"),
    ];
    for (text, kind) in cases {
        let value = parse_document(text.to_string()).unwrap();
        let found = match value {
            JsonValue::OBJECT(_) => "object",
            JsonValue::ARRAY(_) => "array",
            JsonValue::STRING(_) => "string",
            JsonValue::NUMBER(_) => "number",
            JsonValue::TRUE => "true",
            JsonValue::FALSE => "false",
            JsonValue::NULL => "null",
        };
        assert_eq!(found, kind);
    }
}

#[test]
fn numbers_keep_their_value() {
    let cases = [
        ("0", 0f64),
        ("1", 1f64),
        ("-1", -1f64),
        ("-1000", -1000f64),
        ("1345.15", 1345.15f64),
        ("0.1e-05", 0.1e-05f64),
    ];
    for (text, expected) in cases {
        match parse_document(text.to_string()) {
            Ok(JsonValue::NUMBER(literal)) => {
                assert_eq!(literal, text);
                assert_eq!(literal.parse::<f64>().unwrap(), expected);
            }
            other => panic!("unexpected result {:?}", other),
        }
    }
}

#[test]
fn number_parts_that_break_off_are_left_behind() {
    let cases = [("1.", "1"), ("1.5e", "1.5"), ("2E+", "2"), ("-0.25E-7x", "-0.25E-7"), ("012", "0")];
    for (text, literal) in cases {
        let mut cursor = prepare_environment(text.to_string());
        assert_eq!(accept_number(&mut cursor).unwrap(), num(literal));
        assert_eq!(cursor.remaining(), text.len() - literal.len());
    }
}

#[test]
fn strings_keep_escapes_as_written() {
    assert_eq!(
        parse_document("\"some text\"".to_string()).unwrap(),
        JsonValue::STRING("some text".to_string())
    );
    assert_eq!(
        parse_document("\"\\u2764\"".to_string()).unwrap(),
        JsonValue::STRING("\\u2764".to_string())
    );
    assert_eq!(
        parse_document("\"a\\nb\"".to_string()).unwrap(),
        JsonValue::STRING("a\\nb".to_string())
    );
}

#[test]
fn arrays_and_objects_nest() {
    assert_eq!(
        parse_document("[1, 2, 3]".to_string()).unwrap(),
        JsonValue::ARRAY(vec![num("1"), num("2"), num("3")])
    );
    assert_eq!(
        parse_document("{\"a\":{\"b\":1}}".to_string()).unwrap(),
        JsonValue::OBJECT(vec![member("a", JsonValue::OBJECT(vec![member("b", num("1"))]))])
    );
    assert_eq!(parse_document("[ ]".to_string()).unwrap(), JsonValue::ARRAY(vec![]));
    assert_eq!(parse_document("{ }".to_string()).unwrap(), JsonValue::OBJECT(vec![]));
}

#[test]
fn a_repeated_key_keeps_its_place_and_takes_the_later_value() {
    assert_eq!(
        parse_document("{\"a\": 1, \"b\": true, \"a\": null}".to_string()).unwrap(),
        JsonValue::OBJECT(vec![member("a", JsonValue::NULL), member("b", JsonValue::TRUE)])
    );
}

#[test]
fn text_after_the_value_is_not_looked_at() {
    assert_eq!(parse_document(" 12 ]x".to_string()).unwrap(), num("12"));
    let mut cursor = prepare_environment(" 12 ]x".to_string());
    assert_eq!(accept_value(&mut cursor).unwrap(), num("12"));
    assert_eq!(cursor.remaining(), 2);
}

#[test]
fn an_unterminated_object_fails_at_the_end_of_input() {
    let error = parse_document("{".to_string()).unwrap_err();
    assert_eq!((error.row, error.col), (0, 1));
    assert_eq!(error.msg, "unexpected end of input");
}

#[test]
fn errors_name_the_first_character_not_understood() {
    let error = parse_document("[1,\n  x]".to_string()).unwrap_err();
    assert_eq!((error.row, error.col), (1, 2));
    assert_eq!(error.msg, "unexpected symbol 'x'");

    let error = parse_document("[1 2]".to_string()).unwrap_err();
    assert_eq!((error.row, error.col), (0, 3));
    assert_eq!(error.msg, "unexpected symbol '2'");

    let error = parse_document("tru".to_string()).unwrap_err();
    assert_eq!((error.row, error.col), (0, 3));
    assert_eq!(error.msg, "unexpected end of input");

    let error = parse_document("\"bad \\x escape\"".to_string()).unwrap_err();
    assert_eq!((error.row, error.col), (0, 6));
    assert_eq!(error.msg, "unexpected symbol 'x'");

    let error = parse_document("\"\\u12g4\"".to_string()).unwrap_err();
    assert_eq!((error.row, error.col), (0, 5));

    let error = parse_document("{\"a\" 1}".to_string()).unwrap_err();
    assert_eq!((error.row, error.col), (0, 5));
    assert_eq!(error.msg, "unexpected symbol '1'");

    let error = parse_document("".to_string()).unwrap_err();
    assert_eq!((error.row, error.col), (0, 0));
    assert_eq!(error.msg, "unexpected end of input");
}

#[test]
fn failed_acceptors_stay_on_the_character_they_could_not_take() {
    let mut cursor = prepare_environment("fals".to_string());
    assert!(accept_false(&mut cursor).is_err());
    assert_eq!((cursor.row(), cursor.col(), cursor.remaining()), (0, 4, 0));

    let mut cursor = prepare_environment("x".to_string());
    assert!(accept_true(&mut cursor).is_err());
    assert_eq!(cursor.remaining(), 1);
}

#[test]
fn nesting_deeper_than_the_limit_is_refused() {
    let deep = 128;
    let fits = format!("{}{}", "[".repeat(deep), "]".repeat(deep));
    assert!(parse_document(fits).is_ok());
    let too_deep = format!("{}{}", "[".repeat(deep + 1), "]".repeat(deep + 1));
    let error = parse_document(too_deep).unwrap_err();
    assert_eq!((error.row, error.col), (0, deep));
    assert_eq!(error.msg, "unexpected symbol '['");
}

#[test]
fn rows_and_columns_follow_newlines() {
    let mut cursor = prepare_environment(" \n\n  \t{".to_string());
    accept_whitespace(&mut cursor);
    assert_eq!((cursor.row(), cursor.col(), cursor.remaining()), (2, 3, 1));
}
