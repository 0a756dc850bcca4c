use stackc::ast::{Const, Definition, Operation, Proc, Type};
use stackc::lexer::{classify_text, parse_integer, tokenize, Token};
use stackc::parser::{parser, token_parser, Expected, ParseError};

fn words(source: &str) -> Vec<String> {
    source.split_whitespace().map(|s| s.to_string()).collect()
}

fn mistakes(source: &str) -> Vec<(usize, Option<Token>, Expected)> {
    parser(&words(source))
        .unwrap_err()
        .into_iter()
        .map(|e| (e.position, e.found, e.expected))
        .collect()
}

#[test]
fn empty_input_is_an_empty_program() {
    assert_eq!(parser(&words("")), Ok(vec![]));
    assert_eq!(parser(&words("  \n\t ")), Ok(vec![]));
}

#[test]
fn every_operation_is_parsed_in_order() {
    let defs =
        parser(&words("proc all in + - * divmod idivmod = drop dup print swap 12 name end"))
            .unwrap();
    assert_eq!(
        defs,
        vec![Definition::Proc(Proc {
            name: "all".to_string(),
            ops: vec![
                Operation::Add,
                Operation::Sub,
                Operation::Mul,
                Operation::DivMod,
                Operation::IDivMod,
                Operation::Equal,
                Operation::Drop,
                Operation::Dup,
                Operation::Print,
                Operation::Swap,
                Operation::Integer(12),
                Operation::Word("name".to_string()),
            ],
            inputs: vec![],
            outputs: vec![],
        })]
    );
}

#[test]
fn signature_is_parsed() {
    let defs = parser(&words("proc f int int -- int in end proc g int in end proc h -- int int in end"))
        .unwrap();
    let sigs: Vec<(usize, usize)> = defs
        .iter()
        .map(|d| match d {
            Definition::Proc(p) => (p.inputs.len(), p.outputs.len()),
            Definition::Const(_) => panic!("a constant"),
        })
        .collect();
    assert_eq!(sigs, vec![(2, 1), (1, 0), (0, 2)]);
    match &defs[0] {
        Definition::Proc(p) => {
            assert_eq!(p.inputs, vec![Type::Int, Type::Int]);
            assert_eq!(p.outputs, vec![Type::Int]);
        }
        Definition::Const(_) => panic!("a constant"),
    }
}

#[test]
fn definitions_keep_source_order() {
    let defs = parser(&words("const A 1 end proc b in A end const C A A end")).unwrap();
    assert_eq!(
        defs,
        vec![
            Definition::Const(Const { name: "A".to_string(), ops: vec![Operation::Integer(1)] }),
            Definition::Proc(Proc {
                name: "b".to_string(),
                ops: vec![Operation::Word("A".to_string())],
                inputs: vec![],
                outputs: vec![],
            }),
            Definition::Const(Const {
                name: "C".to_string(),
                ops: vec![Operation::Word("A".to_string()), Operation::Word("A".to_string())],
            }),
        ]
    );
}

#[test]
fn conditionals_nest() {
    let defs = parser(&words("proc main in 1 if 2 if 3 end 4 end 5 if end end")).unwrap();
    assert_eq!(
        defs,
        vec![Definition::Proc(Proc {
            name: "main".to_string(),
            ops: vec![
                Operation::Integer(1),
                Operation::If(vec![
                    Operation::Integer(2),
                    Operation::If(vec![Operation::Integer(3)]),
                    Operation::Integer(4),
                ]),
                Operation::Integer(5),
                Operation::If(vec![]),
            ],
            inputs: vec![],
            outputs: vec![],
        })]
    );
}

#[test]
fn text_outside_a_definition_is_a_mistake() {
    assert_eq!(
        mistakes("1 2 +"),
        vec![(0, Some(Token::Integer(1)), Expected::Definition)]
    );
    assert_eq!(
        mistakes("proc main in end end"),
        vec![(4, Some(Token::End), Expected::Definition)]
    );
}

#[test]
fn missing_name_is_a_mistake() {
    assert_eq!(mistakes("proc"), vec![(1, None, Expected::Name)]);
    assert_eq!(mistakes("proc in end"), vec![(1, Some(Token::In), Expected::Name)]);
    assert_eq!(mistakes("const 5 end"), vec![(1, Some(Token::Integer(5)), Expected::Name)]);
}

#[test]
fn malformed_signature_is_a_mistake() {
    assert_eq!(
        mistakes("proc f int 3 in end"),
        vec![(3, Some(Token::Integer(3)), Expected::Signature)]
    );
    assert_eq!(mistakes("proc f int"), vec![(3, None, Expected::Signature)]);
    assert_eq!(mistakes("proc f -- in end"), vec![(3, Some(Token::In), Expected::Type)]);
    assert_eq!(
        mistakes("proc f -- int x in end"),
        vec![(4, Some(Token::Ident("x".to_string())), Expected::TypeOrIn)]
    );
    assert_eq!(mistakes("proc f -- int"), vec![(4, None, Expected::TypeOrIn)]);
}

#[test]
fn missing_end_is_a_mistake() {
    assert_eq!(mistakes("proc main in 1 2"), vec![(5, None, Expected::Operation)]);
    assert_eq!(mistakes("proc main in 1 if 2 end"), vec![(7, None, Expected::Operation)]);
    assert_eq!(mistakes("const C"), vec![(2, None, Expected::Operation)]);
}

#[test]
fn parsing_goes_on_behind_a_malformed_body() {
    let errors = parser(&words("proc a in 1 proc 2 end proc b in int end proc c in 3 end"))
        .unwrap_err();
    assert_eq!(
        errors,
        vec![
            ParseError { position: 4, found: Some(Token::Proc), expected: Expected::Operation },
            ParseError { position: 10, found: Some(Token::Int), expected: Expected::Operation },
        ]
    );
}

#[test]
fn parsing_stops_at_a_mistake_outside_a_body() {
    let errors = parser(&words("proc in 1 end proc b in -- end")).unwrap_err();
    assert_eq!(
        errors,
        vec![ParseError { position: 1, found: Some(Token::In), expected: Expected::Name }]
    );
}

#[test]
fn recovery_resumes_behind_the_next_end_only() {
    let errors = parser(&words("proc a in if 1 in 2 end 3 end proc b in end")).unwrap_err();
    assert_eq!(
        errors,
        vec![
            ParseError { position: 5, found: Some(Token::In), expected: Expected::Operation },
            ParseError { position: 8, found: Some(Token::Integer(3)), expected: Expected::Definition },
        ]
    );
}

#[test]
fn tokens_are_parsed_directly() {
    let tokens = vec![
        Token::Const,
        Token::Ident("TWO".to_string()),
        Token::Integer(2),
        Token::End,
    ];
    assert_eq!(
        token_parser(&tokens),
        Ok(vec![Definition::Const(Const {
            name: "TWO".to_string(),
            ops: vec![Operation::Integer(2)],
        })])
    );
}

#[test]
fn literals_are_unsigned_decimal() {
    assert_eq!(parse_integer(&"0".to_string()), Some(0));
    assert_eq!(parse_integer(&"007".to_string()), Some(7));
    assert_eq!(parse_integer(&"+5".to_string()), Some(5));
    assert_eq!(parse_integer(&"18446744073709551615".to_string()), Some(u64::MAX));
    assert_eq!(parse_integer(&"18446744073709551616".to_string()), None);
    assert_eq!(parse_integer(&"99999999999999999999999".to_string()), None);
    assert_eq!(parse_integer(&"".to_string()), None);
    assert_eq!(parse_integer(&"+".to_string()), None);
    assert_eq!(parse_integer(&"-1".to_string()), None);
    assert_eq!(parse_integer(&"1_000".to_string()), None);
    assert_eq!(parse_integer(&"12a".to_string()), None);
    assert_eq!(parse_integer(&"٣".to_string()), None);
}

#[test]
fn texts_are_classified() {
    let cases = [
        ("proc", Token::Proc),
        ("const", Token::Const),
        ("in", Token::In),
        ("end", Token::End),
        ("int", Token::Int),
        ("--", Token::Arrow),
        ("if", Token::If),
        ("+", Token::Add),
        ("-", Token::Sub),
        ("*", Token::Mul),
        ("divmod", Token::DivMod),
        ("idivmod", Token::IDivMod),
        ("=", Token::Equal),
        ("drop", Token::Drop),
        ("dup", Token::Dup),
        ("print", Token::Print),
        ("swap", Token::Swap),
        ("42", Token::Integer(42)),
        ("+42", Token::Integer(42)),
        ("x", Token::Ident("x".to_string())),
        ("Proc", Token::Ident("Proc".to_string())),
        ("18446744073709551616", Token::Ident("18446744073709551616".to_string())),
    ];
    for (text, token) in cases {
        assert_eq!(classify_text(&text.to_string()), token, "{}", text);
    }
}

#[test]
fn source_is_split_at_white_space() {
    assert_eq!(tokenize(""), Some(vec![]));
    assert_eq!(tokenize(" \t\r\n\x0b\x0c"), Some(vec![]));
    assert_eq!(tokenize("a"), Some(vec!["a".to_string()]));
    assert_eq!(
        tokenize("  proc main\tin\n3 4 +\r\nend  "),
        Some(words("proc main in 3 4 + end"))
    );
    assert_eq!(tokenize("a\x0bb\x0cc"), Some(words("a b c")));
    assert_eq!(tokenize("a\u{0}b \x1f \x7f"), Some(vec![
        "a\u{0}b".to_string(),
        "\x1f".to_string(),
        "\x7f".to_string(),
    ]));
}

#[test]
fn source_that_is_not_ascii_is_refused() {
    assert_eq!(tokenize("proc caf\u{e9} in end"), None);
    assert_eq!(tokenize("a\u{a0}b"), None);
}

#[test]
fn source_text_is_parsed() {
    let texts = tokenize("proc main in\n  3 4 +\nend\n").unwrap();
    assert_eq!(
        parser(&texts),
        Ok(vec![Definition::Proc(Proc {
            name: "main".to_string(),
            ops: vec![Operation::Integer(3), Operation::Integer(4), Operation::Add],
            inputs: vec![],
            outputs: vec![],
        })])
    );
}
