use json_parser::{JsonNode, JsonParser, JsonValue, TokenKind};
use json_parser::cursor::CharCursor;

fn leaf(kind: TokenKind, value: &str, start: usize, end: usize) -> JsonNode {
    JsonNode {
        kind,
        key: None,
        value: Some(JsonValue::String(String::from(value))),
        children: None,
        start,
        end,
    }
}

fn container(kind: TokenKind, children: Vec<JsonNode>, start: usize, end: usize) -> JsonNode {
    JsonNode {
        kind,
        key: None,
        value: None,
        children: Some(children),
        start,
        end,
    }
}

fn property(key: JsonNode, value: JsonNode, start: usize, end: usize) -> JsonNode {
    JsonNode {
        kind: TokenKind::Property,
        key: Some(Box::new(key)),
        value: Some(JsonValue::JsonNode(Box::new(value))),
        children: None,
        start,
        end,
    }
}

#[test]
fn leading_whitespace_moves_offsets_only() {
    let parser = JsonParser::new();
    assert_eq!(
        parser.parse("[1, \"x\"]"),
        container(
            TokenKind::Array,
            vec![leaf(TokenKind::Number, "1", 1, 1), leaf(TokenKind::String, "x", 4, 6)],
            0,
            7,
        )
    );
    assert_eq!(
        parser.parse("  \n[1, \"x\"]"),
        container(
            TokenKind::Array,
            vec![leaf(TokenKind::Number, "1", 4, 4), leaf(TokenKind::String, "x", 7, 9)],
            3,
            10,
        )
    );
    assert!(parser.try_parse(" \t[1,").is_none());
    assert!(parser.try_parse("[1,").is_none());
}

#[test]
fn trailing_whitespace_changes_nothing() {
    let parser = JsonParser::new();
    let expected = container(
        TokenKind::Object,
        vec![property(leaf(TokenKind::String, "k", 1, 3), leaf(TokenKind::Null, "null", 5, 8), 1, 9)],
        0,
        9,
    );
    assert_eq!(parser.parse("{\"k\":null}"), expected);
    assert_eq!(parser.parse("{\"k\":null} \t\r\n"), expected);
}

#[test]
fn trailing_whitespace_does_not_complete_a_number() {
    let parser = JsonParser::new();
    for input in ["1.", "1. ", "-", "- \n", "[1.]", "[-]", "{\"a\":1.}", "{\"a\":-}", "-.5", "1.]"] {
        assert!(parser.try_parse(input).is_none(), "accepted {:?}", input);
    }
    assert_eq!(parser.try_parse("1.5 "), Some(leaf(TokenKind::Number, "1.5", 0, 2)));
}

#[test]
fn nested_spans_lie_within_their_parents() {
    let node = JsonParser::new().parse("[[1],{\"a\":[]}]");
    assert_eq!(
        node,
        container(
            TokenKind::Array,
            vec![
                container(TokenKind::Array, vec![leaf(TokenKind::Number, "1", 2, 2)], 1, 3),
                container(
                    TokenKind::Object,
                    vec![property(
                        leaf(TokenKind::String, "a", 6, 8),
                        container(TokenKind::Array, vec![], 10, 11),
                        6,
                        12,
                    )],
                    5,
                    12,
                ),
            ],
            0,
            13,
        )
    );
}

#[test]
fn offsets_count_bytes_of_multibyte_characters() {
    let parser = JsonParser::new();
    assert_eq!(parser.parse("\"\u{e9}\""), leaf(TokenKind::String, "\u{e9}", 0, 3));
    assert_eq!(
        parser.parse("[\"\u{65e5}\", 2]"),
        container(
            TokenKind::Array,
            vec![leaf(TokenKind::String, "\u{65e5}", 1, 5), leaf(TokenKind::Number, "2", 8, 8)],
            0,
            9,
        )
    );
    assert_eq!(
        parser.parse("\"\u{1f600}x\""),
        leaf(TokenKind::String, "\u{1f600}x", 0, 6)
    );
}

#[test]
fn try_parse_refuses_what_parse_panics_on() {
    let parser = JsonParser::new();
    for input in [
        "", "   ", "\"unterminated", "01", "1.", "1.2.3", "1e3", "-", "True", "trueish",
        "nullish", "nul", "[1, 2", "[1,]", "[1 2]", "[,1]", "{\"a\" 1}", "{\"a\":1",
        "{\"a\":1,}", "{\"a\":1 \"b\":2}", "{a:1}", "-01", "-.5", "x", "[", "{", "{\"a\":1 ,\"b\":2}",
    ] {
        assert!(parser.try_parse(input).is_none(), "accepted {:?}", input);
    }
}

#[test]
fn try_parse_agrees_with_parse() {
    let parser = JsonParser::new();
    for input in ["0", "-0", "0.0", "[true,false]", "{\"a\":[1,2]}", " null "] {
        assert_eq!(parser.try_parse(input), Some(parser.parse(input)));
    }
}

#[test]
fn number_and_whitespace_forms() {
    let parser = JsonParser::new();
    assert!(parser.try_parse("[-]").is_none());
    assert!(parser.try_parse("[1.]").is_none());
    assert_eq!(
        parser.parse("[1.5]"),
        container(TokenKind::Array, vec![leaf(TokenKind::Number, "1.5", 1, 3)], 0, 4)
    );
    assert_eq!(
        parser.parse("[1 , 2]"),
        container(
            TokenKind::Array,
            vec![leaf(TokenKind::Number, "1", 1, 1), leaf(TokenKind::Number, "2", 5, 5)],
            0,
            6,
        )
    );
    assert_eq!(parser.parse("-0"), leaf(TokenKind::Number, "-0", 0, 1));
    assert_eq!(parser.parse("0.0"), leaf(TokenKind::Number, "0.0", 0, 2));
}

#[test]
fn property_ends_at_the_character_after_its_value() {
    let node = JsonParser::new().parse("{\"a\":1 }");
    assert_eq!(
        node,
        container(
            TokenKind::Object,
            vec![property(leaf(TokenKind::String, "a", 1, 3), leaf(TokenKind::Number, "1", 5, 5), 1, 6)],
            0,
            7,
        )
    );
}

#[test]
fn text_form_of_nodes() {
    let parser = JsonParser::new();
    assert_eq!(
        parser.parse("[1]").to_string(),
        "{ kind: Array, children: [{ kind: Number, value: 1, start: 1, end: 1 }], start: 0, end: 2 }"
    );
    assert_eq!(
        parser.parse("[1,2]").to_string(),
        "{ kind: Array, children: [{ kind: Number, value: 1, start: 1, end: 1 }, { kind: Number, value: 2, start: 3, end: 3 }], start: 0, end: 4 }"
    );
    assert_eq!(parser.parse("[]").to_string(), "{ kind: Array, children: [], start: 0, end: 1 }");
    assert_eq!(
        parser.parse("{\"k\":true}").to_string(),
        "{ kind: Object, children: [{ kind: Property, key: { kind: String, value: k, start: 1, end: 3 }, value: { kind: Boolean, value: true, start: 5, end: 8 }, start: 1, end: 9 }], start: 0, end: 9 }"
    );
    assert_eq!(
        parser.parse("          null").to_string(),
        "{ kind: Null, value: null, start: 10, end: 13 }"
    );
    assert_eq!(JsonValue::String(String::from("abc")).to_string(), "abc");
    let nested = JsonValue::JsonNode(Box::new(parser.parse("7")));
    assert_eq!(nested.to_string(), "{ kind: Number, value: 7, start: 0, end: 0 }");
}

#[test]
fn clone_keeps_every_field() {
    let node = JsonParser::new().parse("{\"arr\":[1,\"two\",null],\"b\":false}");
    assert_eq!(node.clone(), node);
    let value = JsonValue::JsonNode(Box::new(node.clone()));
    assert_eq!(value.clone(), value);
}

fn check_texts(node: &JsonNode, input: &[u8]) {
    match &node.value {
        Some(JsonValue::String(text)) => {
            if node.kind == TokenKind::String {
                assert_eq!(&input[node.start + 1..node.end], text.as_bytes());
            } else {
                assert_eq!(&input[node.start..node.end + 1], text.as_bytes());
            }
        }
        Some(JsonValue::JsonNode(inner)) => check_texts(inner, input),
        None => {}
    }
    if let Some(key) = &node.key {
        check_texts(key, input);
    }
    if let Some(children) = &node.children {
        for child in children {
            check_texts(child, input);
        }
    }
}

#[test]
fn scalar_texts_are_the_input_bytes_at_their_offsets() {
    let input = " {\"k\\\"\u{e9}\" : [12.5, -3, true, null, \"\u{65e5}\\n\"], \"z\":false}";
    let node = JsonParser::new().parse(input);
    check_texts(&node, input.as_bytes());
    let key = node.children.as_ref().unwrap()[0].key.as_ref().unwrap();
    assert_eq!(**key, leaf(TokenKind::String, "k\\\"\u{e9}", 2, 8));
}

#[test]
fn surrounding_whitespace_changes_offsets_only() {
    let parser = JsonParser::new();
    for input in ["1", "-0.5", "\"a b\"", "[1, [true]]", "{\"k\": {\"x\":null}}", "1.", "-", "[1.]", "01"] {
        let plain = parser.try_parse(input);
        let padded = parser.try_parse(&format!(" \t\n{}\r ", input));
        match (plain, padded) {
            (None, None) => {}
            (Some(a), Some(b)) => {
                assert_eq!(b.start, a.start + 3);
                assert_eq!(b.end, a.end + 3);
            }
            _ => panic!("whitespace changed acceptance of {:?}", input),
        }
    }
}

#[test]
fn numbers_follow_the_json_number_form() {
    let parser = JsonParser::new();
    for input in ["0", "-0", "7", "-12", "10.25", "0.5", "-0.0"] {
        assert!(parser.try_parse(input).is_some(), "refused {:?}", input);
    }
    for input in ["00", "-01", "1.", "-", "-.5", ".5", "1.2.3", "1..2", "--1", "+1"] {
        assert!(parser.try_parse(input).is_none(), "accepted {:?}", input);
    }
}

#[test]
fn string_ends_at_first_unescaped_quote() {
    let parser = JsonParser::new();
    assert_eq!(parser.parse("\"a\\\\\""), leaf(TokenKind::String, "a\\\\", 0, 4));
    assert_eq!(parser.parse("\"a\\\"b\""), leaf(TokenKind::String, "a\\\"b", 0, 5));
    assert!(parser.try_parse("\"a\\\\\"b\"").is_none());
}

#[test]
fn containers_stand_between_their_brackets() {
    let input = "{\"a\": [1, {\"b\": []}]}";
    let node = JsonParser::new().parse(input);
    let bytes = input.as_bytes();
    assert_eq!(bytes[node.start], b'{');
    assert_eq!(bytes[node.end], b'}');
    let prop = &node.children.as_ref().unwrap()[0];
    assert_eq!(prop.kind, TokenKind::Property);
    let value = match prop.value.as_ref() {
        Some(JsonValue::JsonNode(v)) => v,
        _ => panic!("expected a nested value"),
    };
    assert_eq!(prop.end, value.end + 1);
    assert_eq!(bytes[value.start], b'[');
    assert_eq!(bytes[value.end], b']');
}

#[test]
fn grammar_texts_are_accepted() {
    let texts = [
        "0",
        " -0.5 ",
        "\"a\\\"b\"",
        "null",
        "\ttrue\n",
        "false",
        "[ ]",
        "[1 , [2,3] ,\"x\"]",
        "{ }",
        "{ \"a\" : 1, \"b\":{\"c\":[null]}\r\n}",
        "{\"k\" :\"v\" }",
    ];
    for text in texts.iter() {
        assert!(JsonParser::new().try_parse(text).is_some(), "refused: {}", text);
    }
}

#[test]
fn scalar_readers_consume_exactly_their_token() {
    let parser = JsonParser::new();

    let mut chars = CharCursor::new("12,3");
    let node = parser.parse_number(&mut chars);
    assert_eq!(node, leaf(TokenKind::Number, "12", 0, 1));
    assert_eq!(chars.peek(), Some((2, ',')));

    let mut chars = CharCursor::new("-0.25");
    let node = parser.parse_number(&mut chars);
    assert_eq!(node, leaf(TokenKind::Number, "-0.25", 0, 4));
    assert_eq!(chars.peek(), None);

    assert!(parser.try_parse("[1.]").is_none());
    assert!(parser.try_parse("[-]").is_none());

    let mut chars = CharCursor::new("\"a\\\"b\" x");
    let node = parser.parse_string(&mut chars);
    assert_eq!(node, leaf(TokenKind::String, "a\\\"b", 0, 5));
    assert_eq!(chars.peek(), Some((6, ' ')));

    let mut chars = CharCursor::new("nullx");
    let node = parser.parse_null(&mut chars);
    assert_eq!(node, leaf(TokenKind::Null, "null", 0, 3));
    assert_eq!(chars.peek(), Some((4, 'x')));
    assert!(parser.try_parse("nul").is_none());

    let mut chars = CharCursor::new("false]");
    let node = parser.parse_boolean(&mut chars);
    assert_eq!(node, leaf(TokenKind::Boolean, "false", 0, 4));
    assert_eq!(chars.peek(), Some((5, ']')));
    assert!(parser.try_parse("True").is_none());

    let mut chars = CharCursor::new(" \t\r\nx");
    parser.skip_white_space(&mut chars);
    assert_eq!(chars.peek(), Some((4, 'x')));
}

#[test]
fn value_reader_dispatches_on_the_first_character() {
    let parser = JsonParser::new();
    let cases = [
        ("\"s\"", TokenKind::String),
        ("null", TokenKind::Null),
        ("{}", TokenKind::Object),
        ("[]", TokenKind::Array),
        ("true", TokenKind::Boolean),
        ("false", TokenKind::Boolean),
        ("-1", TokenKind::Number),
        ("7", TokenKind::Number),
    ];
    for (text, kind) in cases.iter() {
        let mut chars = CharCursor::new(text);
        let node = parser.value(&mut chars);
        assert_eq!(node.kind, *kind);
        assert_eq!(node.start, 0);
        assert_eq!(chars.peek(), None);
    }
    assert!(parser.try_parse("x").is_none());

    let mut chars = CharCursor::new("1 , 2 ]");
    let mut children: Vec<JsonNode> = Vec::new();
    parser.items(&mut chars, &mut children);
    assert_eq!(
        children,
        vec![leaf(TokenKind::Number, "1", 0, 0), leaf(TokenKind::Number, "2", 4, 4)]
    );
    assert_eq!(chars.peek(), Some((6, ']')));
}

#[test]
fn container_readers_lay_out_their_children() {
    let parser = JsonParser::new();

    let mut chars = CharCursor::new("[1 , 2]x");
    let node = parser.parse_array(&mut chars);
    assert_eq!(
        node,
        container(
            TokenKind::Array,
            vec![leaf(TokenKind::Number, "1", 1, 1), leaf(TokenKind::Number, "2", 5, 5)],
            0,
            6
        )
    );
    assert_eq!(chars.peek(), Some((7, 'x')));

    let mut chars = CharCursor::new("{ \"a\" : 1}");
    let node = parser.parse_object(&mut chars);
    let key = leaf(TokenKind::String, "a", 2, 4);
    let value = leaf(TokenKind::Number, "1", 8, 8);
    assert_eq!(node, container(TokenKind::Object, vec![property(key.clone(), value.clone(), 2, 9)], 0, 9));
    assert_eq!(chars.peek(), None);

    let mut chars = CharCursor::new("\"a\":1,\"b\":[]}");
    let mut children: Vec<JsonNode> = Vec::new();
    parser.ky(&mut chars, &mut children);
    assert_eq!(children.len(), 2);
    assert_eq!((children[0].start, children[0].end), (0, 5));
    assert_eq!((children[1].start, children[1].end), (6, 12));
    assert_eq!(chars.peek(), Some((12, '}')));
}

#[test]
fn strings_start_and_end_on_quotes() {
    let input = "[\"x\", {\"é\": \"\"}]";
    let node = JsonParser::new().parse(input);
    let bytes = input.as_bytes();
    let children = node.children.unwrap();
    assert_eq!(bytes[children[0].start], b'"');
    assert_eq!(bytes[children[0].end], b'"');
    let prop = &children[1].children.as_ref().unwrap()[0];
    let key = prop.key.as_ref().unwrap();
    assert_eq!((bytes[key.start], bytes[key.end]), (b'"', b'"'));
    assert_eq!(key.end - key.start, 3);
}
