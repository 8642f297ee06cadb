use lox_rs::expr::Expr;
use lox_rs::parser::{parse, ParserError};
use lox_rs::stmt::Stmt;
use lox_rs::tokenizer::{tokenize, Literal, Token, TokenType};

fn tok(token_type: TokenType, lexeme: &str, line: usize, col: usize) -> Token {
    Token { token_type, lexeme: lexeme.to_string(), line, col }
}

fn parse_source(source: &str) -> Result<Vec<Stmt>, ParserError> {
    parse(tokenize(&source.to_string()).unwrap())
}

fn num(text: &str) -> Expr {
    Expr::Literal { literal: Literal::Number(text.to_string()) }
}

fn binary(lhs: Expr, op: Token, rhs: Expr) -> Expr {
    Expr::Binary { lhs: Box::new(lhs), op, rhs: Box::new(rhs) }
}

#[test]
fn precedence_of_binary_operators() {
    let expected = Stmt::Expression {
        expr: binary(
            num("1"),
            tok(TokenType::Plus, "+", 1, 3),
            binary(num("2"), tok(TokenType::Star, "*", 1, 7), num("3")),
        ),
    };
    assert_eq!(parse_source("1 + 2 * 3;"), Ok(vec![expected]));
}

#[test]
fn binary_operators_associate_to_the_left() {
    let expected = Stmt::Expression {
        expr: binary(
            binary(num("1"), tok(TokenType::EqualEqual, "==", 1, 3), num("2")),
            tok(TokenType::BangEqual, "!=", 1, 8),
            num("3"),
        ),
    };
    assert_eq!(parse_source("1 == 2 != 3;"), Ok(vec![expected]));
}

#[test]
fn comparison_binds_tighter_than_equality() {
    let expected = Stmt::Expression {
        expr: binary(
            num("1"),
            tok(TokenType::EqualEqual, "==", 1, 3),
            binary(num("2"), tok(TokenType::Less, "<", 1, 8), num("3")),
        ),
    };
    assert_eq!(parse_source("1 == 2 < 3;"), Ok(vec![expected]));
}

#[test]
fn term_binds_looser_than_factor_and_subtraction_is_left_associative() {
    let expected = Stmt::Expression {
        expr: binary(
            binary(num("8"), tok(TokenType::Minus, "-", 1, 3), num("4")),
            tok(TokenType::Minus, "-", 1, 7),
            binary(num("2"), tok(TokenType::Slash, "/", 1, 11), num("1")),
        ),
    };
    assert_eq!(parse_source("8 - 4 - 2 / 1;"), Ok(vec![expected]));
}

#[test]
fn print_statement_with_grouping() {
    let expected = Stmt::Print { expr: Expr::Grouping { expr: Box::new(num("1")) } };
    assert_eq!(parse_source("print (1);"), Ok(vec![expected]));
}

#[test]
fn nested_unary_operators() {
    let expected = Stmt::Expression {
        expr: Expr::Unary {
            op: tok(TokenType::Minus, "-", 1, 1),
            rhs: Box::new(Expr::Unary {
                op: tok(TokenType::Bang, "!", 1, 2),
                rhs: Box::new(Expr::Literal { literal: Literal::Boolean(true) }),
            }),
        },
    };
    assert_eq!(parse_source("-!true;"), Ok(vec![expected]));
}

#[test]
fn several_statements() {
    let stmts = parse_source("1; print \"a\"; nil;").unwrap();
    assert_eq!(stmts.len(), 3);
    assert_eq!(stmts[1], Stmt::Print { expr: Expr::Literal { literal: Literal::String("a".to_string()) } });
    assert_eq!(stmts[2], Stmt::Expression { expr: Expr::Literal { literal: Literal::Nil } });
}

#[test]
fn no_statements() {
    assert_eq!(parse_source(""), Ok(vec![]));
    assert_eq!(parse(vec![tok(TokenType::Eof, "", 1, 1)]), Ok(vec![]));
}

#[test]
fn parsing_stops_at_the_first_eof() {
    let tokens = vec![
        tok(TokenType::Eof, "", 1, 1),
        tok(TokenType::Semicolon, ";", 1, 2),
    ];
    assert_eq!(parse(tokens), Ok(vec![]));
}

#[test]
fn missing_operand() {
    assert_eq!(
        parse_source("1 +;"),
        Err(ParserError::SyntaxError(tok(TokenType::Semicolon, ";", 1, 4), "Expected expression".to_string()))
    );
}

#[test]
fn missing_closing_parenthesis() {
    assert_eq!(
        parse_source("(1;"),
        Err(ParserError::SyntaxError(tok(TokenType::Semicolon, ";", 1, 3), "Expect ')' after expression.".to_string()))
    );
}

#[test]
fn missing_semicolon() {
    assert_eq!(
        parse_source("print 1"),
        Err(ParserError::SyntaxError(tok(TokenType::Eof, "", 1, 8), "Expect ';' after value.".to_string()))
    );
    assert_eq!(
        parse_source("1 2;"),
        Err(ParserError::SyntaxError(tok(TokenType::Literal(Literal::Number("2".to_string())), "2", 1, 3), "Expect ';' after value.".to_string()))
    );
}

#[test]
fn keywords_are_not_expressions() {
    assert_eq!(
        parse_source("var x = 1;"),
        Err(ParserError::SyntaxError(tok(TokenType::Var, "var", 1, 1), "Expected expression".to_string()))
    );
}

#[test]
fn identifiers_are_not_expressions() {
    assert_eq!(
        parse_source("x;"),
        Err(ParserError::SyntaxError(
            tok(TokenType::Literal(Literal::Identifier("x".to_string())), "x", 1, 1),
            "Expected expression".to_string()
        ))
    );
    assert_eq!(
        parse_source("print 1 + y;"),
        Err(ParserError::SyntaxError(
            tok(TokenType::Literal(Literal::Identifier("y".to_string())), "y", 1, 11),
            "Expected expression".to_string()
        ))
    );
}

#[test]
fn an_error_before_any_eof_needs_no_eof() {
    assert_eq!(
        parse(vec![tok(TokenType::RightParenthesis, ")", 1, 1)]),
        Err(ParserError::SyntaxError(tok(TokenType::RightParenthesis, ")", 1, 1), "Expected expression".to_string()))
    );
}

#[test]
fn tokens_after_the_first_eof_are_never_read() {
    let a = vec![tok(TokenType::Print, "print", 1, 1), tok(TokenType::Literal(Literal::Nil), "nil", 1, 7), tok(TokenType::Semicolon, ";", 1, 10)];
    let mut with_eof = a.clone();
    with_eof.push(tok(TokenType::Eof, "", 1, 11));
    let mut with_more = with_eof.clone();
    with_more.push(tok(TokenType::RightParenthesis, ")", 2, 1));
    with_more.push(tok(TokenType::Plus, "+", 2, 2));
    let expected = Ok(vec![Stmt::Print { expr: Expr::Literal { literal: Literal::Nil } }]);
    assert_eq!(parse(with_eof), expected);
    assert_eq!(parse(with_more), expected);
}

#[test]
fn statements_parse_independently_of_one_another() {
    let mut a = tokenize(&"print 1 + 2;".to_string()).unwrap();
    let eof = a.pop().unwrap();
    let mut b = tokenize(&"(nil); print \"s\";".to_string()).unwrap();
    b.pop();
    let mut first = a.clone();
    first.push(eof.clone());
    let mut second = b.clone();
    second.push(eof.clone());
    let mut both = a.clone();
    both.extend(b.clone());
    both.push(eof);
    let mut expected = parse(first).unwrap();
    expected.extend(parse(second).unwrap());
    assert_eq!(expected.len(), 3);
    assert_eq!(parse(both), Ok(expected));
}
