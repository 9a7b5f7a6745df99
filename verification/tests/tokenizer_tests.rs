use tiny_compiler::tokenizer::{characters, take_run, tokenizer, LexError, RunKind, Token};

fn number(text: &str) -> Token {
    Token::Number(String::from(text))
}

fn name(text: &str) -> Token {
    Token::Name(String::from(text))
}

fn string(text: &str) -> Token {
    Token::String(String::from(text))
}

#[test]
fn tokenizer_it_works() -> Result<(), LexError> {
    assert_eq!(tokenizer("(")?, vec![Token::ParenOpen]);
    assert_eq!(tokenizer("( ")?, vec![Token::ParenOpen]);
    assert_eq!(tokenizer(")")?, vec![Token::ParenClose]);
    assert_eq!(
        tokenizer("1337")?,
        vec![Token::Number(String::from("1337"))]
    );
    assert_eq!(tokenizer("add")?, vec![Token::Name(String::from("add"))]);
    assert_eq!(
        tokenizer("\"mrmarble\"")?,
        vec![Token::String(String::from("mrmarble"))]
    );

    assert_eq!(
        tokenizer("(add 2 (subtract 1 4))")?,
        vec![
            Token::ParenOpen,
            Token::Name(String::from("add")),
            Token::Number(String::from("2")),
            Token::ParenOpen,
            Token::Name(String::from("subtract")),
            Token::Number(String::from("1")),
            Token::Number(String::from("4")),
            Token::ParenClose,
            Token::ParenClose
        ]
    );
    Ok(())
}

#[test]
#[should_panic]
fn test_invalid() {
    tokenizer("!").unwrap();
}

#[test]
fn unknown_character_is_reported() {
    assert_eq!(tokenizer("!"), Err(LexError::UnknownCharacter('!')));
}

#[test]
fn first_unknown_character_wins_and_no_tokens_are_returned() {
    assert_eq!(tokenizer("(add 1 #2 $)"), Err(LexError::UnknownCharacter('#')));
    assert_eq!(tokenizer("abc?!"), Err(LexError::UnknownCharacter('?')));
}

#[test]
fn uppercase_underscore_and_sign_are_unknown() {
    assert_eq!(tokenizer("Add"), Err(LexError::UnknownCharacter('A')));
    assert_eq!(tokenizer("a_b"), Err(LexError::UnknownCharacter('_')));
    assert_eq!(tokenizer("-1"), Err(LexError::UnknownCharacter('-')));
    assert_eq!(tokenizer("1.5"), Err(LexError::UnknownCharacter('.')));
    assert_eq!(tokenizer("\u{e9}"), Err(LexError::UnknownCharacter('\u{e9}')));
}

#[test]
fn empty_and_blank_texts_have_no_tokens() {
    assert_eq!(tokenizer(""), Ok(vec![]));
    assert_eq!(tokenizer("   "), Ok(vec![]));
    assert_eq!(tokenizer(" \t\r\n"), Ok(vec![]));
}

#[test]
fn unicode_whitespace_is_skipped() {
    assert_eq!(
        tokenizer("\u{a0}(\u{2003}a\u{3000})"),
        Ok(vec![Token::ParenOpen, name("a"), Token::ParenClose])
    );
}

#[test]
fn digit_ends_a_name_and_letter_ends_a_number() {
    assert_eq!(tokenizer("abc123"), Ok(vec![name("abc"), number("123")]));
    assert_eq!(tokenizer("12ab34"), Ok(vec![number("12"), name("ab"), number("34")]));
}

#[test]
fn runs_are_maximal() {
    assert_eq!(tokenizer("0123456789"), Ok(vec![number("0123456789")]));
    assert_eq!(
        tokenizer("abcdefghijklmnopqrstuvwxyz"),
        Ok(vec![name("abcdefghijklmnopqrstuvwxyz")])
    );
    assert_eq!(tokenizer("1 2"), Ok(vec![number("1"), number("2")]));
    assert_eq!(tokenizer("a b"), Ok(vec![name("a"), name("b")]));
}

#[test]
fn parens_need_no_spaces() {
    assert_eq!(
        tokenizer("(a(b)7)"),
        Ok(vec![
            Token::ParenOpen,
            name("a"),
            Token::ParenOpen,
            name("b"),
            Token::ParenClose,
            number("7"),
            Token::ParenClose
        ])
    );
}

#[test]
fn string_holds_anything_but_a_quote() {
    assert_eq!(tokenizer("\"Hello, World! (1)\""), Ok(vec![string("Hello, World! (1)")]));
    assert_eq!(tokenizer("\"\""), Ok(vec![string("")]));
    assert_eq!(tokenizer("\"a\"\"b\""), Ok(vec![string("a"), string("b")]));
    assert_eq!(tokenizer("\"a\\\"b"), Ok(vec![string("a\\"), name("b")]));
    assert_eq!(tokenizer("\"\u{e9}t\u{e9}\" x"), Ok(vec![string("\u{e9}t\u{e9}"), name("x")]));
}

#[test]
fn unterminated_string_is_still_a_token() {
    assert_eq!(tokenizer("\"abc"), Ok(vec![string("abc")]));
    assert_eq!(tokenizer("\""), Ok(vec![string("")]));
    assert_eq!(tokenizer("(a \"b c)"), Ok(vec![Token::ParenOpen, name("a"), string("b c)")]));
}

#[test]
fn characters_are_unicode_scalar_values() {
    assert_eq!(characters(""), Vec::<char>::new());
    assert_eq!(characters("a\u{e9}\u{1f600}("), vec!['a', '\u{e9}', '\u{1f600}', '(']);
}

#[test]
fn take_run_stops_at_the_first_character_outside_the_class() {
    let chars = characters("12ab\"c");
    assert_eq!(take_run(&chars, 0, RunKind::Digits), (String::from("12"), 2));
    assert_eq!(take_run(&chars, 1, RunKind::Digits), (String::from("2"), 2));
    assert_eq!(take_run(&chars, 2, RunKind::Digits), (String::new(), 2));
    assert_eq!(take_run(&chars, 2, RunKind::Letters), (String::from("ab"), 4));
    assert_eq!(take_run(&chars, 0, RunKind::Quoted), (String::from("12ab"), 4));
    assert_eq!(take_run(&chars, 5, RunKind::Letters), (String::from("c"), 6));
    assert_eq!(take_run(&chars, 6, RunKind::Letters), (String::new(), 6));
}

#[test]
fn duplicate_equals_the_token() {
    for token in [Token::ParenOpen, Token::ParenClose, number("7"), name("x"), string("s t")] {
        assert_eq!(token.duplicate(), token);
    }
    assert!(Token::ParenClose.is_paren_close());
    assert!(!Token::ParenOpen.is_paren_close());
    assert!(!name("x").is_paren_close());
}

#[test]
fn texts_of_known_characters_have_tokens() {
    for text in ["", "()", ")(", "a1\"", "\"\"\"", " ( a 1 \" ) ", "9z)(\"x", "\t\n(\r)"] {
        assert!(tokenizer(text).is_ok(), "{}", text);
    }
}

#[test]
fn token_texts_are_of_their_class() {
    for token in tokenizer("(ab 12 \"x y\" c3 \"\" 4d)").unwrap() {
        match token {
            Token::Number(text) => {
                assert!(!text.is_empty() && text.chars().all(|c| c.is_ascii_digit()))
            }
            Token::Name(text) => {
                assert!(!text.is_empty() && text.chars().all(|c| c.is_ascii_lowercase()))
            }
            Token::String(text) => assert!(!text.contains('"')),
            Token::ParenOpen | Token::ParenClose => {}
        }
    }
}
