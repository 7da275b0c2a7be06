use json_graph::parser::tokenize;
use json_graph::{decode_tokens, DecodeError, Field, Token};

fn s(text: &str) -> Token {
    Token::Str(text.to_string())
}

fn node(data: &str, dependencies: &[u64]) -> Vec<Token> {
    let mut tokens = vec![
        Token::Object { len: 2, count: 4 + dependencies.len() },
        s("Data"),
        s(data),
        s("Dependencies"),
        Token::Array { len: dependencies.len(), count: dependencies.len() },
    ];
    for d in dependencies {
        tokens.push(Token::Unsigned(*d));
    }
    tokens
}

fn document(entries: Vec<(&str, Vec<Token>)>) -> Vec<Token> {
    let mut body = Vec::new();
    let len = entries.len();
    for (key, value) in entries {
        body.push(s(key));
        body.extend(value);
    }
    let mut tokens = vec![Token::Object { len, count: body.len() }];
    tokens.extend(body);
    tokens
}

fn malformed(tokens: &Vec<Token>) -> bool {
    matches!(decode_tokens(tokens), Err(DecodeError::Malformed { .. }))
}

fn violation(tokens: &Vec<Token>) -> (Option<String>, Option<Field>) {
    match decode_tokens(tokens) {
        Err(DecodeError::SchemaViolation { node, field }) => (node, field),
        Err(other) => panic!("{other:?}"),
        Ok(_) => panic!("accepted"),
    }
}

#[test]
fn tokens_of_every_kind_of_value() {
    let tokens = tokenize(
        br#"{"a": [1, -2, 3.5, true, false, null, "s", {"k": 18446744073709551615}], "b": {}}"#
            .to_vec(),
    )
    .unwrap();
    assert_eq!(
        tokens,
        vec![
            Token::Object { len: 2, count: 14 },
            s("a"),
            Token::Array { len: 8, count: 10 },
            Token::Unsigned(1),
            Token::Signed(-2),
            Token::Float,
            Token::Bool(true),
            Token::Bool(false),
            Token::Null,
            s("s"),
            Token::Object { len: 1, count: 2 },
            s("k"),
            Token::Unsigned(18446744073709551615),
            s("b"),
            Token::Object { len: 0, count: 0 },
        ]
    );
}

#[test]
fn tokens_of_a_scalar_document() {
    assert_eq!(tokenize(b"7".to_vec()).unwrap(), vec![Token::Unsigned(7)]);
    assert_eq!(tokenize(b"-7".to_vec()).unwrap(), vec![Token::Signed(-7)]);
    assert_eq!(tokenize(b"0".to_vec()).unwrap(), vec![Token::Unsigned(0)]);
    assert_eq!(tokenize(b"1.0".to_vec()).unwrap(), vec![Token::Float]);
    assert_eq!(tokenize(b"true".to_vec()).unwrap(), vec![Token::Bool(true)]);
    assert_eq!(tokenize(b"null".to_vec()).unwrap(), vec![Token::Null]);
    assert_eq!(tokenize(b"-7".to_vec()).unwrap(), vec![Token::Signed(-7)]);
    assert_eq!(tokenize(b"\"x\\ny\"".to_vec()).unwrap(), vec![s("x\ny")]);
    assert_eq!(tokenize(b"[]".to_vec()).unwrap(), vec![Token::Array { len: 0, count: 0 }]);
}

#[test]
fn tokens_of_an_integer_too_large_for_64_bits() {
    assert_eq!(tokenize(b"18446744073709551616".to_vec()).unwrap(), vec![Token::Float]);
}

#[test]
fn tokens_keep_repeated_keys() {
    let tokens = tokenize(br#"{"a": 1, "a": 2}"#.to_vec()).unwrap();
    assert_eq!(
        tokens,
        vec![
            Token::Object { len: 2, count: 4 },
            s("a"),
            Token::Unsigned(1),
            s("a"),
            Token::Unsigned(2),
        ]
    );
}

#[test]
fn tokenize_rejects_what_is_no_document() {
    for text in ["", "{", "}", "{\"a\"}", "{\"a\":}", "[1,]", "tru", "01", "\"open", "{'a': 1}"] {
        match tokenize(text.as_bytes().to_vec()) {
            Err(DecodeError::Malformed { diagnostic }) => assert!(!diagnostic.is_empty(), "{text}"),
            other => panic!("{text} gave {other:?}"),
        }
    }
}

#[test]
fn written_tokens_decode() {
    let tokens = document(vec![("a", node("x", &[3, 1, 2])), ("b", node("", &[]))]);
    let g = decode_tokens(&tokens).unwrap_or_else(|e| panic!("{e:?}"));
    assert_eq!(g.len(), 2);
    assert_eq!(g.get("a").unwrap().data, "x");
    assert_eq!(g.get("a").unwrap().dependencies, vec![3, 1, 2]);
    assert_eq!(g.get("b").unwrap().data, "");
    assert!(g.get("b").unwrap().dependencies.is_empty());
}

#[test]
fn written_tokens_are_what_the_parser_gives() {
    let written = document(vec![("a", node("x", &[4294967296, 18446744073709551615]))]);
    let parsed = tokenize(
        br#"{"a": {"Data": "x", "Dependencies": [4294967296, 18446744073709551615]}}"#.to_vec(),
    )
    .unwrap();
    assert_eq!(
        parsed,
        vec![
            Token::Object { len: 1, count: 8 },
            s("a"),
            Token::Object { len: 2, count: 6 },
            s("Data"),
            s("x"),
            s("Dependencies"),
            Token::Array { len: 2, count: 2 },
            Token::Unsigned(4294967296),
            Token::Unsigned(18446744073709551615),
        ]
    );
    assert_eq!(written, parsed);
}

#[test]
fn no_tokens_are_malformed() {
    assert!(malformed(&vec![]));
}

#[test]
fn tokens_that_end_early_are_malformed() {
    let whole = document(vec![("a", node("x", &[1, 2])), ("b", node("y", &[3]))]);
    assert!(decode_tokens(&whole).is_ok());
    for cut in 1..whole.len() {
        let part: Vec<Token> = whole[..cut].to_vec();
        assert!(malformed(&part), "cut at {cut}");
    }
}

#[test]
fn tokens_behind_the_document_are_malformed() {
    let mut tokens = document(vec![("a", node("x", &[1]))]);
    tokens.push(Token::Null);
    assert!(malformed(&tokens));
    assert!(malformed(&vec![Token::Object { len: 0, count: 0 }, Token::Object { len: 0, count: 0 }]));
}

#[test]
fn key_that_is_no_string_is_malformed() {
    let mut tokens = document(vec![("a", node("x", &[1]))]);
    tokens[1] = Token::Signed(1);
    assert!(malformed(&tokens));
    let mut tokens = document(vec![("a", node("x", &[1]))]);
    tokens[3] = Token::Null;
    assert!(malformed(&tokens));
}

#[test]
fn count_that_runs_past_the_end_is_malformed() {
    let tokens = vec![
        Token::Object { len: 1, count: 4 },
        s("a"),
        Token::Object { len: 1, count: 2 },
        s("other"),
        Token::Array { len: 0, count: 1 },
    ];
    assert!(malformed(&tokens));
    let tokens = vec![
        Token::Object { len: 1, count: 4 },
        s("a"),
        Token::Object { len: 1, count: 2 },
        s("other"),
        Token::Object { len: 0, count: usize::MAX },
    ];
    assert!(malformed(&tokens));
}

#[test]
fn value_of_another_field_is_passed_over_by_its_count() {
    let tokens = vec![
        Token::Object { len: 1, count: 13 },
        s("a"),
        Token::Object { len: 3, count: 11 },
        s("other"),
        Token::Array { len: 2, count: 3 },
        Token::Array { len: 1, count: 1 },
        s("Data"),
        Token::Null,
        s("Data"),
        s("x"),
        s("Dependencies"),
        Token::Array { len: 2, count: 2 },
        Token::Signed(5),
        Token::Unsigned(6),
    ];
    let g = decode_tokens(&tokens).unwrap_or_else(|e| panic!("{e:?}"));
    assert_eq!(g.get("a").unwrap().data, "x");
    assert_eq!(g.get("a").unwrap().dependencies, vec![5, 6]);
}

#[test]
fn integer_tokens_within_32_bits_are_dependencies() {
    assert_eq!(Token::Signed(0).as_dependency(), Some(0));
    assert_eq!(Token::Signed(4294967295).as_dependency(), Some(u32::MAX));
    assert_eq!(Token::Unsigned(0).as_dependency(), Some(0));
    assert_eq!(Token::Unsigned(4294967295).as_dependency(), Some(u32::MAX));
    assert_eq!(Token::Unsigned(17).as_dependency(), Some(17));
}

#[test]
fn other_tokens_are_no_dependencies() {
    for token in [
        Token::Signed(-1),
        Token::Signed(i64::MIN),
        Token::Signed(4294967296),
        Token::Signed(i64::MAX),
        Token::Unsigned(4294967296),
        Token::Unsigned(u64::MAX),
        Token::Float,
        Token::Null,
        Token::Bool(true),
        s("1"),
        Token::Array { len: 0, count: 0 },
        Token::Object { len: 0, count: 0 },
    ] {
        assert_eq!(token.as_dependency(), None, "{token:?}");
    }
}

#[test]
fn node_whose_tokens_do_not_hold_together_is_malformed() {
    let tokens = vec![
        Token::Object { len: 1, count: 6 },
        s("a"),
        Token::Object { len: 2, count: 4 },
        s("Dependencies"),
        Token::Array { len: 3, count: 3 },
        Token::Signed(1),
        Token::Signed(-1),
    ];
    assert!(malformed(&tokens));
    let tokens = vec![
        Token::Object { len: 1, count: 4 },
        s("a"),
        Token::Object { len: 1, count: 4 },
        s("Data"),
        s("x"),
        s("Dependencies"),
        Token::Array { len: 0, count: 0 },
    ];
    assert!(malformed(&tokens));
}

#[test]
fn replaced_node_whose_tokens_do_not_hold_together_is_malformed() {
    let mut tokens = vec![
        Token::Object { len: 2, count: 10 },
        s("a"),
        Token::Object { len: 7, count: 2 },
        s("Data"),
        Token::Null,
        s("a"),
    ];
    tokens.extend(node("x", &[1]));
    assert!(malformed(&tokens));
}

#[test]
fn field_that_stands_twice_is_a_violation() {
    let tokens = vec![
        Token::Object { len: 1, count: 9 },
        s("a"),
        Token::Object { len: 3, count: 7 },
        s("Data"),
        s("x"),
        s("Dependencies"),
        Token::Array { len: 1, count: 1 },
        Token::Unsigned(1),
        s("Data"),
        s("y"),
    ];
    assert_eq!(violation(&tokens), (Some("a".to_string()), Some(Field::Data)));
    let tokens = vec![
        Token::Object { len: 1, count: 9 },
        s("a"),
        Token::Object { len: 3, count: 7 },
        s("Dependencies"),
        Token::Array { len: 0, count: 0 },
        s("Data"),
        s("x"),
        s("Dependencies"),
        Token::Array { len: 1, count: 1 },
        Token::Unsigned(1),
    ];
    assert_eq!(violation(&tokens), (Some("a".to_string()), Some(Field::Dependencies)));
}

#[test]
fn elements_of_an_array_are_the_tokens_that_it_counts() {
    let tokens = vec![
        Token::Object { len: 1, count: 9 },
        s("a"),
        Token::Object { len: 2, count: 7 },
        s("Dependencies"),
        Token::Array { len: 2, count: 3 },
        Token::Array { len: 1, count: 1 },
        Token::Unsigned(1),
        Token::Unsigned(2),
        s("Data"),
        s("x"),
    ];
    assert_eq!(violation(&tokens), (Some("a".to_string()), Some(Field::Dependencies)));
}

#[test]
fn fault_of_the_first_entry_is_reported() {
    let mut tokens = vec![Token::Object { len: 3, count: 12 }, s("a"), Token::Null, s("b")];
    tokens.extend(vec![Token::Object { len: 1, count: 2 }, s("Data"), s("x")]);
    tokens.push(s("a"));
    tokens.extend(node("x", &[]));
    assert_eq!(tokens.len(), 13);
    assert_eq!(violation(&tokens), (Some("a".to_string()), None));
    let mut tokens = vec![Token::Object { len: 4, count: 14 }, s("a")];
    tokens.extend(node("x", &[]));
    tokens.push(s("b"));
    tokens.extend(vec![Token::Object { len: 1, count: 2 }, s("Data"), s("x")]);
    tokens.push(s("a"));
    tokens.extend(vec![Token::Null]);
    tokens.push(s("c"));
    tokens.extend(vec![Token::Null]);
    assert_eq!(tokens.len(), 15);
    assert_eq!(violation(&tokens), (Some("b".to_string()), Some(Field::Dependencies)));
}

#[test]
fn root_that_is_no_object_is_a_violation() {
    assert_eq!(violation(&vec![Token::Array { len: 0, count: 0 }]), (None, None));
    assert_eq!(violation(&vec![Token::Null]), (None, None));
    assert_eq!(violation(&vec![s("x"), Token::Null]), (None, None));
}
