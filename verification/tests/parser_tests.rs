use tiny_compiler::parser::{parser, walk, Node, ParseError};
use tiny_compiler::tokenizer::{tokenizer, Token};

fn name(text: &str) -> Token {
    Token::Name(String::from(text))
}

fn call(name: &str, params: Vec<Node>) -> Node {
    Node::CallExpression { name: String::from(name), params }
}

fn parse_text(text: &str) -> Result<Node, ParseError> {
    parser(tokenizer(text).unwrap())
}

/// The number of closing parentheses that bring the nesting depth back to zero.
fn top_level_groups(tokens: &[Token]) -> usize {
    let mut depth: i64 = 0;
    let mut groups = 0;
    for token in tokens {
        match token {
            Token::ParenOpen => depth += 1,
            Token::ParenClose => {
                depth -= 1;
                if depth == 0 {
                    groups += 1;
                }
            }
            _ => {}
        }
    }
    groups
}

#[test]
fn parser_it_works() -> Result<(), ParseError> {
    assert_eq!(
        parser(vec![
            Token::ParenOpen,
            Token::Name(String::from("add")),
            Token::ParenClose
        ])?,
        Node::Program {
            body: vec![Node::CallExpression {
                name: String::from("add"),
                params: vec![]
            }]
        }
    );
    Ok(())
}

#[test]
#[should_panic]
fn test_panic() {
    parser(vec![Token::ParenOpen]).unwrap();
}

#[test]
fn lone_open_paren_is_an_unexpected_end() {
    assert_eq!(parser(vec![Token::ParenOpen]), Err(ParseError::UnexpectedEnd));
    assert_eq!(
        parser(vec![Token::ParenOpen, name("a"), Token::ParenOpen]),
        Err(ParseError::UnexpectedEnd)
    );
}

#[test]
fn unclosed_call_is_an_unmatched_paren() {
    assert_eq!(parser(vec![Token::ParenOpen, name("a")]), Err(ParseError::UnmatchedParen));
    assert_eq!(parse_text("(a (b)"), Err(ParseError::UnmatchedParen));
    assert_eq!(parse_text("(a (b) (c"), Err(ParseError::UnmatchedParen));
}

#[test]
fn open_paren_needs_a_name() {
    assert_eq!(parse_text("()"), Err(ParseError::ExpectedName(Token::ParenClose)));
    assert_eq!(parse_text("(("), Err(ParseError::ExpectedName(Token::ParenOpen)));
    assert_eq!(
        parse_text("(1)"),
        Err(ParseError::ExpectedName(Token::Number(String::from("1"))))
    );
    assert_eq!(
        parse_text("(\"s\")"),
        Err(ParseError::ExpectedName(Token::String(String::from("s"))))
    );
}

#[test]
fn stray_tokens_are_unknown() {
    assert_eq!(parse_text(")"), Err(ParseError::UnknownToken(Token::ParenClose)));
    assert_eq!(parse_text("add"), Err(ParseError::UnknownToken(name("add"))));
    assert_eq!(
        parse_text("42"),
        Err(ParseError::UnknownToken(Token::Number(String::from("42"))))
    );
    assert_eq!(
        parse_text("\"s\""),
        Err(ParseError::UnknownToken(Token::String(String::from("s"))))
    );
    assert_eq!(parse_text("(a))"), Err(ParseError::UnknownToken(Token::ParenClose)));
    assert_eq!(parse_text("(a b)"), Err(ParseError::UnknownToken(name("b"))));
}

#[test]
fn bare_numbers_in_argument_position_fail() {
    assert_eq!(
        parse_text("(add 2 (subtract 1 4))"),
        Err(ParseError::UnknownToken(Token::Number(String::from("2"))))
    );
}

#[test]
fn first_error_from_the_left_wins() {
    assert_eq!(parse_text("(a (1) b"), Err(ParseError::ExpectedName(Token::Number(String::from("1")))));
    assert_eq!(parse_text("(a) b ("), Err(ParseError::UnknownToken(name("b"))));
}

#[test]
fn empty_tokens_give_an_empty_program() {
    assert_eq!(parser(vec![]), Ok(Node::Program { body: vec![] }));
    assert_eq!(parse_text("  \n "), Ok(Node::Program { body: vec![] }));
}

#[test]
fn nested_calls_keep_their_order() {
    assert_eq!(
        parse_text("(add (two) (subtract (one) (four)))"),
        Ok(Node::Program {
            body: vec![call(
                "add",
                vec![
                    call("two", vec![]),
                    call("subtract", vec![call("one", vec![]), call("four", vec![])])
                ]
            )]
        })
    );
}

#[test]
fn top_level_calls_keep_their_order() {
    assert_eq!(
        parse_text("(a)(b (c))\n(d)"),
        Ok(Node::Program {
            body: vec![call("a", vec![]), call("b", vec![call("c", vec![])]), call("d", vec![])]
        })
    );
}

#[test]
fn body_length_is_the_number_of_top_level_groups() {
    for (text, groups) in [
        ("", 0),
        ("(a)", 1),
        ("(a (b) (c (d)))", 1),
        ("(a) (b) (c)", 3),
        ("(a (b))(c)(d (e (f)))  (g)", 4),
    ] {
        let tokens = tokenizer(text).unwrap();
        assert_eq!(top_level_groups(&tokens), groups);
        match parser(tokens) {
            Ok(Node::Program { body }) => assert_eq!(body.len(), groups),
            other => panic!("{:?}", other),
        }
    }
}

#[test]
fn deep_nesting_is_parsed() {
    let depth = 200;
    let mut text = String::new();
    for _ in 0..depth {
        text.push_str("(f ");
    }
    for _ in 0..depth {
        text.push(')');
    }
    let mut node = match parse_text(&text) {
        Ok(Node::Program { mut body }) => {
            assert_eq!(body.len(), 1);
            body.pop().unwrap()
        }
        other => panic!("{:?}", other),
    };
    let mut seen = 0;
    loop {
        match node {
            Node::CallExpression { name, mut params } => {
                assert_eq!(name, "f");
                seen += 1;
                match params.pop() {
                    Some(inner) => {
                        assert!(params.is_empty());
                        node = inner;
                    }
                    None => break,
                }
            }
            other => panic!("{:?}", other),
        }
    }
    assert_eq!(seen, depth);
}

#[test]
fn walk_returns_the_position_behind_the_call() {
    let tokens = tokenizer("(a (b)) (c)").unwrap();
    assert_eq!(walk(&tokens, 0), Ok((call("a", vec![call("b", vec![])]), 6)));
    assert_eq!(walk(&tokens, 2), Ok((call("b", vec![]), 5)));
    assert_eq!(walk(&tokens, 6), Ok((call("c", vec![]), 9)));
    assert_eq!(walk(&tokens, 1), Err(ParseError::UnknownToken(name("a"))));
    assert_eq!(walk(&tokens, 8), Err(ParseError::UnknownToken(Token::ParenClose)));
}

fn unparse(node: &Node, tokens: &mut Vec<Token>) {
    match node {
        Node::Program { body } => {
            for child in body {
                unparse(child, tokens);
            }
        }
        Node::CallExpression { name: text, params } => {
            tokens.push(Token::ParenOpen);
            tokens.push(name(text));
            for child in params {
                unparse(child, tokens);
            }
            tokens.push(Token::ParenClose);
        }
    }
}

#[test]
fn a_tree_written_out_is_parsed_back() {
    let tree = Node::Program {
        body: vec![
            call("a", vec![call("b", vec![]), call("c", vec![call("d", vec![])])]),
            call("e", vec![]),
        ],
    };
    let mut tokens = Vec::new();
    unparse(&tree, &mut tokens);
    assert_eq!(tokens, tokenizer("(a (b) (c (d))) (e)").unwrap());
    assert_eq!(parser(tokens), Ok(tree));
}

#[test]
fn a_parsed_tree_written_out_gives_the_tokens() {
    for text in ["", "(a)", "(a (b) (c (d)))", "(a)(b)(c (d) (e))"] {
        let tokens = tokenizer(text).unwrap();
        let tree = parser(tokenizer(text).unwrap()).unwrap();
        let mut written = Vec::new();
        unparse(&tree, &mut written);
        assert_eq!(written, tokens);
    }
}

#[test]
fn malformed_texts_give_typed_errors() {
    for text in [
        "(", ")", "((", "))", "()", "(a", "(a (", "(a ()", "(a))", "a", "1", "\"s\"", "(a 1)",
        "(a \"s\")", "(a b)", "(1 a)", ")(", "(a) )", "(a (b)", "\"(a)",
    ] {
        let tokens = tokenizer(text).unwrap();
        assert!(parser(tokens).is_err(), "{}", text);
    }
}
