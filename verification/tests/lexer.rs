use blood::lexer::{lex, LexErr, Token, Tokens};

#[test]
fn lex_lparen() {
    let input = "(";
    let expected = vec![Token::make(0, 0, Tokens::LParen)];
    let actual = lex(&input.into()).unwrap();

    assert_eq!(expected, actual);
}

#[test]
fn lex_rparen() {
    let input = ")";
    let expected = vec![Token::make(0, 0, Tokens::RParen)];
    let actual = lex(&input.into()).unwrap();

    assert_eq!(expected, actual);
}

#[test]
fn lex_string() {
    let input = "\"a string!\"";
    let expected = vec![Token::make(0, 0, Tokens::String("a string!".into()))];
    let actual = lex(&input.into()).unwrap();

    assert_eq!(expected, actual);
}

#[test]
fn lex_add() {
    let input = "(+ 1 2 3)";
    let expected = vec![
        Token::make(0, 0, Tokens::LParen),
        Token::make(0, 1, Tokens::Identifier("+".into())),
        Token::make(0, 3, Tokens::Number(1)),
        Token::make(0, 5, Tokens::Number(2)),
        Token::make(0, 7, Tokens::Number(3)),
        Token::make(0, 8, Tokens::RParen),
    ];
    let actual = lex(&input.into()).unwrap();

    assert_eq!(expected, actual);
}

#[test]
fn lex_separator() {
    let input = "(a:num)";
    let expected = vec![
        Token::make(0, 0, Tokens::LParen),
        Token::make(0, 1, Tokens::Identifier("a".into())),
        Token::make(0, 2, Tokens::TypeSeparator),
        Token::make(0, 3, Tokens::Identifier("num".into())),
        Token::make(0, 6, Tokens::RParen),
    ];
    let actual = lex(&input.into()).unwrap();

    assert_eq!(expected, actual);
}

#[test]
fn lex_comment() {
    let input = ";; Test comment bruh\r\n";
    let expected = vec![Token::make(0, 0, Tokens::Comment("Test comment bruh".into()))];
    let actual = lex(&input.into()).unwrap();

    assert_eq!(expected, actual);
}

#[test]
fn lex_complex_add() {
    let input = "(* 1 (+ 2 3))";
    let expected = vec![
        Token::make(0, 0, Tokens::LParen),
        Token::make(0, 1, Tokens::Identifier("*".into())),
        Token::make(0, 3, Tokens::Number(1)),
        Token::make(0, 5, Tokens::LParen),
        Token::make(0, 6, Tokens::Identifier("+".into())),
        Token::make(0, 8, Tokens::Number(2)),
        Token::make(0, 10, Tokens::Number(3)),
        Token::make(0, 11, Tokens::RParen),
        Token::make(0, 12, Tokens::RParen),
    ];
    let actual = lex(&input.into()).unwrap();

    assert_eq!(expected, actual);
}

#[test]
fn lex_valid_program() {
    let input = "
            (define (test prog)
                (display prog))
        ";

    let expected = vec![
        Token::make(1, 12, Tokens::LParen),
        Token::make(1, 13, Tokens::Identifier("define".into())),
        Token::make(1, 20, Tokens::LParen),
        Token::make(1, 21, Tokens::Identifier("test".into())),
        Token::make(1, 26, Tokens::Identifier("prog".into())),
        Token::make(1, 30, Tokens::RParen),
        Token::make(2, 16, Tokens::LParen),
        Token::make(2, 17, Tokens::Identifier("display".into())),
        Token::make(2, 25, Tokens::Identifier("prog".into())),
        Token::make(2, 29, Tokens::RParen),
        Token::make(2, 30, Tokens::RParen),
    ];
    let actual = lex(&input.into()).unwrap();

    assert_eq!(expected, actual);
}

#[test]
fn lex_unclosed_string_fails() {
    let actual = lex(&"\"abc".into());

    assert_eq!(actual, Err(LexErr::UnclosedString));
}

#[test]
fn lex_number_at_end_of_input() {
    let expected = vec![Token::make(0, 0, Tokens::Number(123))];
    let actual = lex(&"123".into()).unwrap();

    assert_eq!(expected, actual);
}

#[test]
fn lex_negative_number() {
    let expected = vec![
        Token::make(0, 0, Tokens::Number(-42)),
        Token::make(0, 4, Tokens::Identifier("-".into())),
    ];
    let actual = lex(&"-42 -".into()).unwrap();

    assert_eq!(expected, actual);
}

#[test]
fn lex_overflowing_digits_are_an_identifier() {
    let expected = vec![Token::make(0, 0, Tokens::Identifier("99999999999".into()))];
    let actual = lex(&"99999999999".into()).unwrap();

    assert_eq!(expected, actual);
}

#[test]
fn lex_comment_at_end_of_input_is_trimmed() {
    let expected = vec![Token::make(0, 0, Tokens::Comment("tail".into()))];
    let actual = lex(&";; tail ".into()).unwrap();

    assert_eq!(expected, actual);
}

// Texts that parse as an integer always come back as numbers, never as
// identifiers, whatever bounds the accumulation.
#[test]
fn lex_integer_texts_always_become_numbers() {
    for input in ["7", "7 ", "(7)", "+7", "-0", "2147483647", "-2147483648"] {
        let tokens = lex(&input.to_string()).unwrap();
        for token in tokens {
            if let Tokens::Identifier(text) = &token.token {
                assert!(text.parse::<i32>().is_err(), "identifier {:?} reads as an integer", text);
            }
        }
        assert!(lex(&input.to_string())
            .unwrap()
            .iter()
            .any(|t| matches!(t.token, Tokens::Number(_))));
    }
}

// Re-lexing a token's own rendered text reproduces its kind.
#[test]
fn relex_rendered_tokens() {
    let cases = [
        ("(", Tokens::LParen),
        (")", Tokens::RParen),
        ("5", Tokens::Number(5)),
        ("-17", Tokens::Number(-17)),
        ("hello", Tokens::Identifier("hello".into())),
        ("+", Tokens::Identifier("+".into())),
        ("\"a b\"", Tokens::String("a b".into())),
        (";;hi", Tokens::Comment("hi".into())),
    ];
    for (text, kind) in cases {
        let tokens = lex(&text.to_string()).unwrap();
        assert_eq!(tokens.len(), 1, "re-lexing {:?}", text);
        assert_eq!(tokens[0].token, kind, "re-lexing {:?}", text);
    }
}
