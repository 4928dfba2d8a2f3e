use blood::environment::Environment;
use blood::ir_generation::{generate, Ast};
use blood::lexer::{lex, Token, Tokens};
use blood::parser::{parse, Node};
use blood::syntax_analysis::{analyze, validate_identifier};

#[test]
fn parse_empty_input_is_an_empty_forest() {
    let tokens = lex(&"".into()).unwrap();
    let nodes = parse(&tokens).unwrap();

    assert!(tokens.is_empty());
    assert!(nodes.is_empty());
}

#[test]
fn parse_nested_lists() {
    let tokens = lex(&"(* 1 (+ 2 3))".into()).unwrap();
    let nodes = parse(&tokens).unwrap();

    assert_eq!(nodes.len(), 1);
    let top = match &nodes[0].node {
        Node::List(children) => children,
        other => panic!("expected a list, got {:?}", other),
    };
    assert_eq!(top.len(), 3);
    assert!(matches!(&top[0].node, Node::Identifier(id) if id == "*"));
    assert!(matches!(&top[1].node, Node::Number(1)));
    let inner = match &top[2].node {
        Node::List(children) => children,
        other => panic!("expected a nested list, got {:?}", other),
    };
    assert_eq!(inner.len(), 3);
    assert!(matches!(&inner[0].node, Node::Identifier(id) if id == "+"));
    assert!(matches!(&inner[1].node, Node::Number(2)));
    assert!(matches!(&inner[2].node, Node::Number(3)));
}

#[test]
fn parse_keeps_comments_and_separators() {
    let tokens = lex(&"(a:num) ;; note\n".into()).unwrap();
    let nodes = parse(&tokens).unwrap();

    assert_eq!(nodes.len(), 2);
    let list = match &nodes[0].node {
        Node::List(children) => children,
        other => panic!("expected a list, got {:?}", other),
    };
    assert_eq!(list.len(), 3);
    assert!(matches!(&list[1].node, Node::TypeSeparator));
    assert!(matches!(&nodes[1].node, Node::Comment(c) if c == "note"));
}

#[test]
fn parse_unclosed_list_fails_at_the_opening_paren() {
    let tokens = lex(&"(a".into()).unwrap();
    let err = parse(&tokens).unwrap_err();

    assert_eq!(err.line(), 0);
    assert_eq!(err.line_pos(), 0);
    assert_eq!(err.message().as_str(), "Unclosed list!");
}

#[test]
fn parse_unmatched_rparen_fails_at_the_closing_paren() {
    let tokens = lex(&"a)".into()).unwrap();
    let err = parse(&tokens).unwrap_err();

    assert_eq!(err.line(), 0);
    assert_eq!(err.line_pos(), 1);
    assert_eq!(err.message().as_str(), "Unclosed list!");
}

#[test]
fn parse_reports_the_oldest_unmatched_open() {
    let tokens = lex(&"((a)".into()).unwrap();
    let err = parse(&tokens).unwrap_err();

    assert_eq!(err.line(), 0);
    assert_eq!(err.line_pos(), 0);
}

// A well-formed input has as many opening as closing parentheses, and
// the tree builder consumes every token without leaving frames open.
#[test]
fn balanced_input_builds_completely() {
    let tokens = lex(&"(define (f x) (g (h x)))".into()).unwrap();
    let lparens = tokens.iter().filter(|t| t.token == Tokens::LParen).count();
    let rparens = tokens.iter().filter(|t| t.token == Tokens::RParen).count();

    assert_eq!(lparens, rparens);
    assert!(parse(&tokens).is_ok());
}

#[test]
fn analyze_accepts_a_valid_program() {
    let tokens = lex(&"(+ 1 2 3)".into()).unwrap();

    assert!(analyze(&tokens).is_ok());
}

#[test]
fn analyze_rejects_unclosed_list() {
    let tokens = lex(&"((a)".into()).unwrap();
    let err = analyze(&tokens).unwrap_err();

    assert_eq!(err.message().as_str(), "Unclosed list!");
    assert_eq!(err.line(), 0);
    assert_eq!(err.line_pos(), 3);
}

#[test]
fn analyze_rejects_too_many_rparens() {
    let tokens = lex(&"(a))".into()).unwrap();
    let err = analyze(&tokens).unwrap_err();

    assert_eq!(err.message().as_str(), "Too many right parenthesis!");
    assert_eq!(err.line(), 0);
    assert_eq!(err.line_pos(), 3);
}

#[test]
fn analyze_counts_only_totals_not_order() {
    let tokens = lex(&")(".into()).unwrap();

    assert!(analyze(&tokens).is_ok());
    assert!(parse(&tokens).is_err());
}

#[test]
fn analyze_rejects_digit_leading_identifier() {
    let tokens = lex(&"12ab".into()).unwrap();
    assert!(matches!(&tokens[0].token, Tokens::Identifier(id) if id == "12ab"));
    let err = analyze(&tokens).unwrap_err();

    assert_eq!(
        err.message().as_str(),
        "Invalid starting character '1' for identifier '12ab'"
    );
}

#[test]
fn validate_identifier_rejects_empty_text() {
    let token = Token::make(3, 7, Tokens::Identifier("".into()));
    let err = validate_identifier(&"".into(), &token).unwrap();

    assert_eq!(err.message().as_str(), "Invalid length string!");
    assert_eq!(err.line(), 3);
    assert_eq!(err.line_pos(), 7);
}

#[test]
fn validate_identifier_accepts_ordinary_text() {
    let token = Token::make(0, 0, Tokens::Identifier("fine".into()));

    assert!(validate_identifier(&"fine".into(), &token).is_none());
}

#[test]
fn generate_produces_the_empty_tree() {
    let tokens = lex(&"(a)".into()).unwrap();
    let nodes = parse(&tokens).unwrap();
    let _env = Environment::new();

    assert!(matches!(generate(&nodes), Ok(Ast::Empty)));
}

#[test]
fn is_active_0_returns_false() {
    let rem = 4 % 3;
    let r = rem as f32;

    let q = f32::rem_euclid(4.0, 3.);

    assert_eq!(r, q);
}
