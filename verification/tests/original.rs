use json_parser::{JsonNode, JsonParser, JsonValue, TokenKind};

fn scalar_node(kind: TokenKind, value: &str, start: usize, end: usize) -> JsonNode {
    JsonNode {
        kind,
        key: None,
        value: Some(JsonValue::String(String::from(value))),
        children: None,
        start,
        end,
    }
}

fn string_node(value: &str, start: usize, end: usize) -> JsonNode {
    scalar_node(TokenKind::String, value, start, end)
}

fn number_node(value: &str, start: usize, end: usize) -> JsonNode {
    scalar_node(TokenKind::Number, value, start, end)
}

fn boolean_node(value: &str, start: usize, end: usize) -> JsonNode {
    scalar_node(TokenKind::Boolean, value, start, end)
}

fn null_node(start: usize, end: usize) -> JsonNode {
    scalar_node(TokenKind::Null, "null", start, end)
}

fn array_node(children: Vec<JsonNode>, start: usize, end: usize) -> JsonNode {
    JsonNode {
        kind: TokenKind::Array,
        key: None,
        value: None,
        children: Some(children),
        start,
        end,
    }
}

fn object_node(children: Vec<JsonNode>, start: usize, end: usize) -> JsonNode {
    JsonNode {
        kind: TokenKind::Object,
        key: None,
        value: None,
        children: Some(children),
        start,
        end,
    }
}

fn property_node(key: JsonNode, value: JsonNode, start: usize, end: usize) -> JsonNode {
    JsonNode {
        kind: TokenKind::Property,
        key: Some(Box::new(key)),
        value: Some(JsonValue::JsonNode(Box::new(value))),
        children: None,
        start,
        end,
    }
}

fn text_value(node: &JsonNode) -> &str {
    match node.value.as_ref() {
        Some(JsonValue::String(value)) => value,
        _ => panic!("expected string value"),
    }
}

fn nested_value(node: &JsonNode) -> &JsonNode {
    match node.value.as_ref() {
        Some(JsonValue::JsonNode(value)) => value,
        _ => panic!("expected nested node"),
    }
}

fn children(node: &JsonNode) -> &[JsonNode] {
    node.children.as_deref().expect("expected children")
}

// strings

#[test]
fn empty() {
    assert_eq!(JsonParser::new().parse("\"\""), string_node("", 0, 1));
}

#[test]
fn normal() {
    assert_eq!(
        JsonParser::new().parse("\"hello, world\""),
        string_node("hello, world", 0, 13)
    );
}

#[test]
fn both_whitespace() {
    assert_eq!(
        JsonParser::new().parse(" \t\n\r\"hello, world\" \t\n\r"),
        string_node("hello, world", 4, 17)
    );
}

#[test]
fn escaped_characters_are_preserved() {
    assert_eq!(
        JsonParser::new().parse("\"\\\\\\\"\""),
        string_node("\\\\\\\"", 0, 5)
    );
}

#[test]
fn punctuation_inside_string() {
    assert_eq!(
        JsonParser::new().parse("\"[1, 2]: {ok}\""),
        string_node("[1, 2]: {ok}", 0, 13)
    );
}

#[test]
#[should_panic]
fn unclosed_string_is_invalid() {
    JsonParser::new().parse("\"unterminated");
}

// numbers

#[test]
fn integer() {
    assert_eq!(JsonParser::new().parse("123"), number_node("123", 0, 2));
}

#[test]
fn float() {
    assert_eq!(
        JsonParser::new().parse("123.123"),
        number_node("123.123", 0, 6)
    );
}

#[test]
fn zero_integer() {
    assert_eq!(JsonParser::new().parse("0"), number_node("0", 0, 0));
}

#[test]
fn negative_integer() {
    assert_eq!(JsonParser::new().parse("-42"), number_node("-42", 0, 2));
}

#[test]
fn negative_fraction() {
    assert_eq!(JsonParser::new().parse("-0.5"), number_node("-0.5", 0, 3));
}

#[test]
fn leading_and_trailing_whitespace() {
    assert_eq!(
        JsonParser::new().parse(" \t123\n"),
        number_node("123", 2, 4)
    );
}

#[test]
#[should_panic]
fn leading_zero_integer_is_invalid() {
    JsonParser::new().parse("01");
}

#[test]
#[should_panic]
fn trailing_dot_is_invalid() {
    JsonParser::new().parse("1.");
}

#[test]
#[should_panic]
fn multiple_dots_is_invalid() {
    JsonParser::new().parse("1.2.3");
}

#[test]
#[should_panic]
fn exponent_notation_is_invalid() {
    JsonParser::new().parse("1e3");
}

#[test]
#[should_panic]
fn minus_without_digits_is_invalid() {
    JsonParser::new().parse("-");
}

// booleans

#[test]
fn false_literal() {
    let false_node = JsonParser::new().parse("false");
    assert_eq!(false_node.kind, TokenKind::Boolean);
    assert_eq!(text_value(&false_node), "false");
    assert_eq!(false_node.start, 0);
    assert_eq!(false_node.end, 4);
}

#[test]
fn true_literal() {
    let true_node = JsonParser::new().parse("true");
    assert_eq!(true_node.kind, TokenKind::Boolean);
    assert_eq!(text_value(&true_node), "true");
    assert_eq!(true_node.start, 0);
    assert_eq!(true_node.end, 3);
}

#[test]
fn surrounding_whitespace() {
    let node = JsonParser::new().parse(" \tfalse\n");
    assert_eq!(node.kind, TokenKind::Boolean);
    assert_eq!(text_value(&node), "false");
    assert_eq!(node.end, 6);
}

#[test]
#[should_panic]
fn mixed_case_is_invalid() {
    JsonParser::new().parse("True");
}

#[test]
#[should_panic]
fn trailing_identifier_is_invalid() {
    JsonParser::new().parse("trueish");
}

// null

#[test]
fn lib_normal() {
    assert_eq!(JsonParser::new().parse("null"), null_node(0, 3));
}

#[test]
fn lib_surrounding_whitespace() {
    assert_eq!(JsonParser::new().parse(" \rnull\t"), null_node(2, 5));
}

#[test]
#[should_panic]
fn invalid_suffix() {
    JsonParser::new().parse("nullish");
}

// arrays

#[test]
fn lib_empty() {
    assert_eq!(JsonParser::new().parse("[]"), array_node(vec![], 0, 1));
}

#[test]
fn empty_with_whitespace() {
    assert_eq!(
        JsonParser::new().parse(" \n[ \t]\r"),
        array_node(vec![], 2, 5)
    );
}

#[test]
fn mixed_scalars() {
    assert_eq!(
        JsonParser::new().parse("[\"hi\", 1, null]"),
        array_node(
            vec![
                string_node("hi", 1, 4),
                number_node("1", 7, 7),
                null_node(10, 13),
            ],
            0,
            14,
        )
    );
}

#[test]
fn boolean_items() {
    let node = JsonParser::new().parse("[true,false]");
    let items = children(&node);
    assert_eq!(node.kind, TokenKind::Array);
    assert_eq!(node.start, 0);
    assert_eq!(node.end, 11);
    assert_eq!(items.len(), 2);
    assert_eq!(items[0], boolean_node("true", 1, 4));
    assert_eq!(items[1], boolean_node("false", 6, 10));
}

#[test]
fn nested_array() {
    assert_eq!(
        JsonParser::new().parse("[[], [1, 2]]"),
        array_node(
            vec![
                array_node(vec![], 1, 2),
                array_node(vec![number_node("1", 6, 6), number_node("2", 9, 9)], 5, 10),
            ],
            0,
            11,
        )
    );
}

#[test]
fn nested_object() {
    assert_eq!(
        JsonParser::new().parse("[{\"a\":\"b\"}]"),
        array_node(
            vec![object_node(
                vec![property_node(
                    string_node("a", 2, 4),
                    string_node("b", 6, 8),
                    2,
                    9,
                )],
                1,
                9,
            )],
            0,
            10,
        )
    );
}

#[test]
#[should_panic]
fn missing_closing_bracket_is_invalid() {
    JsonParser::new().parse("[1, 2");
}

#[test]
#[should_panic]
fn trailing_comma_is_invalid() {
    JsonParser::new().parse("[1,]");
}

#[test]
#[should_panic]
fn missing_comma_is_invalid() {
    JsonParser::new().parse("[1 2]");
}

#[test]
#[should_panic]
fn leading_comma_is_invalid() {
    JsonParser::new().parse("[,1]");
}

// objects

#[test]
fn object_empty() {
    assert_eq!(JsonParser::new().parse("{}"), object_node(vec![], 0, 1));
}

#[test]
fn lib_empty_with_whitespace() {
    assert_eq!(
        JsonParser::new().parse(" \n{ \t}\r"),
        object_node(vec![], 2, 5)
    );
}

#[test]
fn single_property() {
    assert_eq!(
        JsonParser::new().parse("{\"name\":\"codex\"}"),
        object_node(
            vec![property_node(
                string_node("name", 1, 6),
                string_node("codex", 8, 14),
                1,
                15,
            )],
            0,
            15,
        )
    );
}

#[test]
fn lib_mixed_scalars() {
    assert_eq!(
        JsonParser::new().parse("{\"s\":\"v\",\"n\":10,\"x\":null}"),
        object_node(
            vec![
                property_node(string_node("s", 1, 3), string_node("v", 5, 7), 1, 8),
                property_node(string_node("n", 9, 11), number_node("10", 13, 14), 9, 15),
                property_node(string_node("x", 16, 18), null_node(20, 23), 16, 24),
            ],
            0,
            24,
        )
    );
}

#[test]
fn boolean_property() {
    let node = JsonParser::new().parse("{\"ok\":true}");
    let props = children(&node);
    assert_eq!(node.kind, TokenKind::Object);
    assert_eq!(node.start, 0);
    assert_eq!(node.end, 10);
    assert_eq!(props.len(), 1);
    assert_eq!(props[0].kind, TokenKind::Property);
    assert_eq!(props[0].start, 1);
    assert_eq!(props[0].end, 10);
    assert_eq!(props[0].key.as_deref(), Some(&string_node("ok", 1, 4)));
    assert_eq!(nested_value(&props[0]), &boolean_node("true", 6, 9));
}

#[test]
fn nested_values() {
    assert_eq!(
        JsonParser::new().parse("{\"arr\":[1,2],\"obj\":{\"k\":\"v\"}}"),
        object_node(
            vec![
                property_node(
                    string_node("arr", 1, 5),
                    array_node(
                        vec![number_node("1", 8, 8), number_node("2", 10, 10)],
                        7,
                        11
                    ),
                    1,
                    12,
                ),
                property_node(
                    string_node("obj", 13, 17),
                    object_node(
                        vec![property_node(
                            string_node("k", 20, 22),
                            string_node("v", 24, 26),
                            20,
                            27,
                        )],
                        19,
                        27,
                    ),
                    13,
                    28,
                ),
            ],
            0,
            28,
        )
    );
}

#[test]
#[should_panic]
fn missing_colon_is_invalid() {
    JsonParser::new().parse("{\"a\" 1}");
}

#[test]
#[should_panic]
fn missing_closing_brace_is_invalid() {
    JsonParser::new().parse("{\"a\":1");
}

#[test]
#[should_panic]
fn lib_trailing_comma_is_invalid() {
    JsonParser::new().parse("{\"a\":1,}");
}

#[test]
#[should_panic]
fn lib_missing_comma_is_invalid() {
    JsonParser::new().parse("{\"a\":1 \"b\":2}");
}

#[test]
#[should_panic]
fn bare_identifier_key_is_invalid() {
    JsonParser::new().parse("{a:1}");
}
