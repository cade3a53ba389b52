use boolean_lang::ast::Ast;
use boolean_lang::parser::parse;
use boolean_lang::parser::parse_expr;
use boolean_lang::token::Token;
use boolean_lang::token::tokenize;

fn var(name: &str) -> Ast {
    Ast::Var(name.to_string())
}

#[test]
fn tokenize_classifies_each_word() {
    let tokens = tokenize("a and ( b or not c )");
    assert_eq!(
        tokens,
        vec![
            Token::Var("a".to_string()),
            Token::And,
            Token::LParen,
            Token::Var("b".to_string()),
            Token::Or,
            Token::Not,
            Token::Var("c".to_string()),
            Token::RParen,
        ]
    );
}

#[test]
fn tokenize_empty_and_blank_input() {
    assert_eq!(tokenize(""), vec![]);
    assert_eq!(tokenize(" \t\n\r "), vec![]);
}

#[test]
fn tokenize_takes_unknown_words_as_variables() {
    let tokens = tokenize("AND foo_bar 42");
    assert_eq!(
        tokens,
        vec![
            Token::Var("AND".to_string()),
            Token::Var("foo_bar".to_string()),
            Token::Var("42".to_string()),
        ]
    );
}

#[test]
fn parse_single_variable() {
    assert_eq!(parse_expr(tokenize("x")), Some(var("x")));
}

#[test]
fn parse_binary_connectives() {
    assert_eq!(
        parse_expr(tokenize("a and b")),
        Some(Ast::And(Box::new(var("a")), Box::new(var("b"))))
    );
    assert_eq!(
        parse_expr(tokenize("a or b")),
        Some(Ast::Or(Box::new(var("a")), Box::new(var("b"))))
    );
}

#[test]
fn parse_not_binds_tighter_than_and() {
    assert_eq!(
        parse_expr(tokenize("not a and b")),
        Some(Ast::And(
            Box::new(Ast::Not(Box::new(var("a")))),
            Box::new(var("b"))
        ))
    );
}

#[test]
fn parse_repeated_not() {
    assert_eq!(
        parse_expr(tokenize("not not a")),
        Some(Ast::Not(Box::new(Ast::Not(Box::new(var("a"))))))
    );
}

#[test]
fn parse_connectives_associate_left() {
    assert_eq!(
        parse_expr(tokenize("a and b or c")),
        Some(Ast::Or(
            Box::new(Ast::And(Box::new(var("a")), Box::new(var("b")))),
            Box::new(var("c"))
        ))
    );
}

#[test]
fn parse_parenthesized_group() {
    assert_eq!(
        parse_expr(tokenize("a and ( b or not c )")),
        Some(Ast::And(
            Box::new(var("a")),
            Box::new(Ast::Or(
                Box::new(var("b")),
                Box::new(Ast::Not(Box::new(var("c"))))
            ))
        ))
    );
}

#[test]
fn parse_unbalanced_parentheses_yields_none() {
    assert_eq!(parse_expr(tokenize("( ( a")), None);
    assert_eq!(parse_expr(tokenize("a )")), None);
    assert_eq!(parse_expr(tokenize("( a ) )")), None);
}

#[test]
fn parse_empty_and_paren_only_input_yields_none() {
    assert_eq!(parse_expr(tokenize("")), None);
    assert_eq!(parse_expr(tokenize("( )")), None);
}

#[test]
fn parse_malformed_operators_yield_none() {
    assert_eq!(parse_expr(tokenize("a and")), None);
    assert_eq!(parse_expr(tokenize("and a")), None);
    assert_eq!(parse_expr(tokenize("a and or b")), None);
    assert_eq!(parse_expr(tokenize("a b")), None);
}

#[test]
fn parse_is_the_same_entry_as_parse_expr() {
    assert_eq!(
        parse(tokenize("a and b")),
        parse_expr(tokenize("a and b"))
    );
    assert_eq!(parse(tokenize("( ( a")), None);
}

#[test]
fn trailing_not_is_absorbed() {
    assert_eq!(parse_expr(tokenize("a not")), Some(var("a")));
}
