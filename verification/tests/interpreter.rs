use lox_rs::expr::{Expr, InterpreterState, NumberOp, RuntimeError, Value};
use lox_rs::parser::ParserError;
use lox_rs::run::{run, RunOutcome};
use lox_rs::stmt::Stmt;
use lox_rs::tokenizer::{Literal, Token, TokenType, TokenizerError};

fn numbers(op: NumberOp<f64>) -> Value<f64> {
    match op {
        NumberOp::Parse(text) => Value::Number(text.parse().unwrap()),
        NumberOp::Add(a, b) => Value::Number(a + b),
        NumberOp::Subtract(a, b) => Value::Number(a - b),
        NumberOp::Multiply(a, b) => Value::Number(a * b),
        NumberOp::Divide(a, b) => Value::Number(a / b),
        NumberOp::Negate(a) => Value::Number(-a),
        NumberOp::Greater(a, b) => Value::Boolean(a > b),
        NumberOp::GreaterEqual(a, b) => Value::Boolean(a >= b),
        NumberOp::Less(a, b) => Value::Boolean(a < b),
        NumberOp::LessEqual(a, b) => Value::Boolean(a <= b),
        NumberOp::Equal(a, b) => Value::Boolean(a == b),
        NumberOp::NotEqual(a, b) => Value::Boolean(a != b),
    }
}

fn tok(token_type: TokenType, lexeme: &str, line: usize, col: usize) -> Token {
    Token { token_type, lexeme: lexeme.to_string(), line, col }
}

fn run_source(source: &str) -> RunOutcome<f64> {
    let mut state = InterpreterState::new();
    run(&mut state, &source.to_string(), &numbers)
}

/// The value that the one `print` statement of `source` prints.
fn printed(source: &str) -> Value<f64> {
    match run_source(source) {
        RunOutcome::Ran(mut outcomes) => {
            assert_eq!(outcomes.len(), 1);
            outcomes.remove(0).unwrap().unwrap()
        },
        other => panic!("did not run: {:?}", other),
    }
}

fn runtime_error(source: &str) -> RuntimeError {
    match run_source(source) {
        RunOutcome::Ran(mut outcomes) => outcomes.remove(0).unwrap_err(),
        other => panic!("did not run: {:?}", other),
    }
}

#[test]
fn arithmetic() {
    assert_eq!(printed("print 1 + 2 * 3;"), Value::Number(7.0));
    assert_eq!(printed("print (1 + 2) * 3;"), Value::Number(9.0));
    assert_eq!(printed("print 8 - 4 - 2;"), Value::Number(2.0));
    assert_eq!(printed("print 7 / 2;"), Value::Number(3.5));
    assert_eq!(printed("print -2.5;"), Value::Number(-2.5));
    assert_eq!(printed("print 1 / 0;"), Value::Number(f64::INFINITY));
}

#[test]
fn comparisons() {
    assert_eq!(printed("print 2 > 1;"), Value::Boolean(true));
    assert_eq!(printed("print 1 >= 1;"), Value::Boolean(true));
    assert_eq!(printed("print 2 < 1;"), Value::Boolean(false));
    assert_eq!(printed("print 2 <= 1;"), Value::Boolean(false));
}

#[test]
fn string_concatenation() {
    assert_eq!(printed("print \"ab\" + \"cd\";"), Value::String("abcd".to_string()));
}

#[test]
fn equality_on_every_kind_of_value() {
    assert_eq!(printed("print 1 == 1.0;"), Value::Boolean(true));
    assert_eq!(printed("print nil == nil;"), Value::Boolean(true));
    assert_eq!(printed("print \"a\" != \"b\";"), Value::Boolean(true));
    assert_eq!(printed("print 1 == \"1\";"), Value::Boolean(false));
    assert_eq!(printed("print true != false;"), Value::Boolean(true));
    assert_eq!(printed("print \"x\" == \"x\";"), Value::Boolean(true));
    assert_eq!(printed("print \"1\" == 1;"), printed("print 1 == \"1\";"));
    assert_eq!(printed("print \"x\" == nil;"), printed("print nil == \"x\";"));
    assert_eq!(printed("print (0 / 0) == (0 / 0);"), Value::Boolean(false));
    assert_eq!(printed("print (0 / 0) != (0 / 0);"), Value::Boolean(true));
}

#[test]
fn not_equal_is_the_negation_of_equal() {
    for (a, b) in [("nil", "nil"), ("\"a\"", "\"a\""), ("\"a\"", "true"), ("true", "nil")] {
        let eq = printed(&format!("print {} == {};", a, b));
        let ne = printed(&format!("print {} != {};", a, b));
        match (eq, ne) {
            (Value::Boolean(e), Value::Boolean(n)) => assert_eq!(e, !n),
            other => panic!("not booleans: {:?}", other),
        }
    }
}

#[test]
fn logical_not() {
    assert_eq!(printed("print !true;"), Value::Boolean(false));
    assert_eq!(printed("print !!false;"), Value::Boolean(false));
}

#[test]
fn printing_an_identifier_is_a_parse_error() {
    assert_eq!(
        run_source("print x;"),
        RunOutcome::ParserFailed(ParserError::SyntaxError(
            tok(TokenType::Literal(Literal::Identifier("x".to_string())), "x", 1, 7),
            "Expected expression".to_string()
        ))
    );
}

#[test]
fn nil_evaluates_to_nil() {
    assert_eq!(printed("print nil;"), Value::Nil);
}

#[test]
fn an_identifier_literal_built_by_hand_evaluates_to_itself() {
    let mut state: InterpreterState<f64> = InterpreterState::new();
    let e = Expr::Literal { literal: Literal::Identifier("x".to_string()) };
    assert_eq!(e.evaluate(&mut state, &numbers), Ok(Value::Identifier("x".to_string())));
}

#[test]
fn the_left_operand_fails_first_whatever_the_operator() {
    let mut state: InterpreterState<f64> = InterpreterState::new();
    let bang = tok(TokenType::Bang, "!", 1, 1);
    let lhs = Expr::Unary { op: bang.clone(), rhs: Box::new(Expr::Literal { literal: Literal::Nil }) };
    let rhs = Expr::Variable { name: tok(TokenType::Literal(Literal::Identifier("y".to_string())), "y", 1, 5) };
    // A comma is no binary operator, but it is never reached.
    let e = Expr::Binary { lhs: Box::new(lhs), op: tok(TokenType::Comma, ",", 1, 3), rhs: Box::new(rhs) };
    assert_eq!(
        e.evaluate(&mut state, &numbers),
        Err(RuntimeError::TypeError(bang, "Unsupported operand type for unary '!'".to_string()))
    );
}

#[test]
fn running_leaves_the_globals_unchanged() {
    let mut state: InterpreterState<f64> = InterpreterState::new();
    let name = tok(TokenType::Literal(Literal::Identifier("x".to_string())), "x", 1, 5);
    let stmt = Stmt::Var { token: name.clone(), intializer: Expr::Literal { literal: Literal::Boolean(true) } };
    assert_eq!(stmt.interpret(&mut state, &numbers), Ok(None));
    let _ = run(&mut state, &"print 1; 2 + 3; print \"a\";".to_string(), &numbers);
    assert_eq!(
        Expr::Variable { name: name.clone() }.evaluate(&mut state, &numbers),
        Ok(Value::Boolean(true))
    );
    let y = tok(TokenType::Literal(Literal::Identifier("y".to_string())), "y", 1, 1);
    assert_eq!(Expr::Variable { name: y.clone() }.evaluate(&mut state, &numbers), Err(RuntimeError::NameError(y)));
}

#[test]
fn binary_type_error() {
    assert_eq!(
        runtime_error("print 1 + \"a\";"),
        RuntimeError::TypeError(tok(TokenType::Plus, "+", 1, 9), "Unsupported operand types for '+'".to_string())
    );
    assert_eq!(
        runtime_error("print true + true;"),
        RuntimeError::TypeError(tok(TokenType::Plus, "+", 1, 12), "Unsupported operand types for '+'".to_string())
    );
    assert_eq!(
        runtime_error("\"a\" <= \"b\";"),
        RuntimeError::TypeError(tok(TokenType::LessEqual, "<=", 1, 5), "Unsupported operand types for '<='".to_string())
    );
}

#[test]
fn unary_type_error() {
    assert_eq!(
        runtime_error("print -\"a\";"),
        RuntimeError::TypeError(tok(TokenType::Minus, "-", 1, 7), "Unsupported operand type for unary '-'".to_string())
    );
    assert_eq!(
        runtime_error("!1;"),
        RuntimeError::TypeError(tok(TokenType::Bang, "!", 1, 1), "Unsupported operand type for unary '!'".to_string())
    );
}

#[test]
fn the_left_operand_fails_first() {
    assert_eq!(
        runtime_error("print (-nil) + (!1);"),
        RuntimeError::TypeError(tok(TokenType::Minus, "-", 1, 8), "Unsupported operand type for unary '-'".to_string())
    );
}

#[test]
fn a_failing_statement_does_not_stop_the_next() {
    match run_source("print 1 + \"a\"; print 2; 3;") {
        RunOutcome::Ran(outcomes) => {
            assert_eq!(outcomes.len(), 3);
            assert!(outcomes[0].is_err());
            assert_eq!(outcomes[1], Ok(Some(Value::Number(2.0))));
            assert_eq!(outcomes[2], Ok(None));
        },
        other => panic!("did not run: {:?}", other),
    }
}

#[test]
fn tokenizer_failure_runs_nothing() {
    assert_eq!(run_source("print 1; @"), RunOutcome::TokenizerFailed(TokenizerError::BadChar('@', 1, 10)));
}

#[test]
fn parser_failure_runs_nothing() {
    assert_eq!(
        run_source("print 1; print"),
        RunOutcome::ParserFailed(ParserError::SyntaxError(tok(TokenType::Eof, "", 1, 15), "Expected expression".to_string()))
    );
}

#[test]
fn an_undefined_variable_is_a_name_error() {
    let mut state: InterpreterState<f64> = InterpreterState::new();
    let name = tok(TokenType::Literal(Literal::Identifier("x".to_string())), "x", 1, 1);
    assert_eq!(
        Expr::Variable { name: name.clone() }.evaluate(&mut state, &numbers),
        Err(RuntimeError::NameError(name))
    );
}

#[test]
fn a_variable_reads_back_what_var_gave_it() {
    let mut state: InterpreterState<f64> = InterpreterState::new();
    let name = tok(TokenType::Literal(Literal::Identifier("x".to_string())), "x", 1, 5);
    let init = Expr::Literal { literal: Literal::String("hello".to_string()) };
    let stmt = Stmt::Var { token: name.clone(), intializer: init };
    assert_eq!(stmt.interpret(&mut state, &numbers), Ok(None));
    assert_eq!(
        Expr::Variable { name: name.clone() }.evaluate(&mut state, &numbers),
        Ok(Value::String("hello".to_string()))
    );
    // Defining it again replaces the value.
    let init = Expr::Literal { literal: Literal::Number("4".to_string()) };
    let stmt = Stmt::Var { token: name.clone(), intializer: init };
    assert_eq!(stmt.interpret(&mut state, &numbers), Ok(None));
    assert_eq!(Expr::Variable { name }.evaluate(&mut state, &numbers), Ok(Value::Number(4.0)));
}

#[test]
fn a_failing_var_defines_nothing() {
    let mut state: InterpreterState<f64> = InterpreterState::new();
    let name = tok(TokenType::Literal(Literal::Identifier("x".to_string())), "x", 1, 5);
    let op = tok(TokenType::Bang, "!", 1, 9);
    let init = Expr::Unary { op: op.clone(), rhs: Box::new(Expr::Literal { literal: Literal::Nil }) };
    let stmt = Stmt::Var { token: name.clone(), intializer: init };
    assert_eq!(
        stmt.interpret(&mut state, &numbers),
        Err(RuntimeError::TypeError(op, "Unsupported operand type for unary '!'".to_string()))
    );
    assert_eq!(
        Expr::Variable { name: name.clone() }.evaluate(&mut state, &numbers),
        Err(RuntimeError::NameError(name))
    );
}

#[test]
fn print_gives_the_value_and_expression_statements_give_nothing() {
    let mut state: InterpreterState<f64> = InterpreterState::new();
    let expr = Expr::Literal { literal: Literal::Boolean(true) };
    assert_eq!(Stmt::Print { expr }.interpret(&mut state, &numbers), Ok(Some(Value::Boolean(true))));
    let expr = Expr::Literal { literal: Literal::Boolean(true) };
    assert_eq!(Stmt::Expression { expr }.interpret(&mut state, &numbers), Ok(None));
}

#[test]
fn grouping_is_transparent() {
    let mut state: InterpreterState<f64> = InterpreterState::new();
    let inner = || Expr::Literal { literal: Literal::Number("2".to_string()) };
    let grouped = Expr::Grouping { expr: Box::new(inner()) };
    assert_eq!(grouped.evaluate(&mut state, &numbers), inner().evaluate(&mut state, &numbers));
}

#[test]
fn number_operations_are_asked_of_the_caller() {
    // A number semantics that counts in whole numbers of its own.
    let count = |op: NumberOp<u32>| -> Value<u32> {
        match op {
            NumberOp::Parse(text) => Value::Number(text.len() as u32),
            NumberOp::Add(a, b) => Value::Number(a * 10 + b),
            _ => Value::Nil,
        }
    };
    let mut state: InterpreterState<u32> = InterpreterState::new();
    match run(&mut state, &"print 123 + 4.5;".to_string(), &count) {
        RunOutcome::Ran(outcomes) => assert_eq!(outcomes, vec![Ok(Some(Value::Number(33)))]),
        other => panic!("did not run: {:?}", other),
    }
}
