//! Expressions and their evaluation.
//!
//! Numbers are not computed here: the evaluator is generic over the type `N`
//! of number values, and every operation on numbers (reading a number
//! literal, arithmetic, comparison, equality) is asked of a function that the
//! caller supplies (see [`NumberOp`]). Everything else (strings, booleans,
//! `nil`, variables, which operand types an operator accepts, and the errors)
//! is decided and verified here, for every such function.

use vstd::prelude::*;
use vstd::string::StringExecFns;
use vstd::hash_map::StringHashMap;
use crate::tokenizer::{Literal, Token, TokenType};

verus! {

/// An expression of the language.
#[derive(Debug, PartialEq)]
pub enum Expr {
    Binary { lhs: Box<Expr>, op: Token, rhs: Box<Expr> },
    Unary { op: Token, rhs: Box<Expr> },
    Grouping { expr: Box<Expr> },
    Literal { literal: Literal },
    Variable { name: Token },
}

/// A value that an expression evaluates to; `N` is the type of numbers.
#[derive(Debug, PartialEq)]
pub enum Value<N> {
    Identifier(String),
    String(String),
    Number(N),
    Boolean(bool),
    Nil,
}

/// A value, its strings taken as sequences of characters.
pub enum ValueModel<N> {
    Identifier(Seq<char>),
    String(Seq<char>),
    Number(N),
    Boolean(bool),
    Nil,
}

impl<N> View for Value<N> {
    type V = ValueModel<N>;

    open spec fn view(&self) -> ValueModel<N> {
        match self {
            Value::Identifier(s) => ValueModel::Identifier(s@),
            Value::String(s) => ValueModel::String(s@),
            Value::Number(n) => ValueModel::Number(*n),
            Value::Boolean(b) => ValueModel::Boolean(*b),
            Value::Nil => ValueModel::Nil,
        }
    }
}

impl<N: Copy> Clone for Value<N> {
    fn clone(&self) -> (r: Self)
        ensures
            r == *self,
    {
        match self {
            Value::Identifier(s) => Value::Identifier(s.clone()),
            Value::String(s) => Value::String(s.clone()),
            Value::Number(n) => Value::Number(*n),
            Value::Boolean(b) => Value::Boolean(*b),
            Value::Nil => Value::Nil,
        }
    }
}

/// An operation on numbers, which the evaluator asks of the caller.
#[derive(Debug, PartialEq)]
pub enum NumberOp<N> {
    /// The number that the text of a number literal spells.
    Parse(String),
    Add(N, N),
    Subtract(N, N),
    Multiply(N, N),
    Divide(N, N),
    Negate(N),
    Greater(N, N),
    GreaterEqual(N, N),
    Less(N, N),
    LessEqual(N, N),
    Equal(N, N),
    NotEqual(N, N),
}

/// Why an expression could not be evaluated.
#[derive(Debug, PartialEq)]
pub enum RuntimeError {
    /// The operator token, and a message.
    TypeError(Token, String),
    /// The name that is not defined.
    NameError(Token),
}

/// A runtime error, its message as a sequence of characters.
pub enum RuntimeErrorModel {
    TypeError(Token, Seq<char>),
    NameError(Token),
}

impl View for RuntimeError {
    type V = RuntimeErrorModel;

    open spec fn view(&self) -> RuntimeErrorModel {
        match self {
            RuntimeError::TypeError(t, m) => RuntimeErrorModel::TypeError(*t, m@),
            RuntimeError::NameError(t) => RuntimeErrorModel::NameError(*t),
        }
    }
}

/// The state that statements run in: the global variables.
#[verifier::reject_recursive_types(N)]
pub struct InterpreterState<N> {
    pub globals: StringHashMap<Value<N>>,
}

impl<N> View for InterpreterState<N> {
    /// The values of the global variables, by name.
    type V = Map<Seq<char>, ValueModel<N>>;

    open spec fn view(&self) -> Map<Seq<char>, ValueModel<N>> {
        self.globals@.map_values(|v: Value<N>| v@)
    }
}

impl<N> InterpreterState<N> {
    /// A state with no variables.
    pub fn new() -> (r: Self)
        ensures
            r@ == Map::<Seq<char>, ValueModel<N>>::empty(),
    {
        let r = InterpreterState { globals: StringHashMap::new() };
        assert(r@ =~= Map::<Seq<char>, ValueModel<N>>::empty());
        r
    }
}

// ---------------------------------------------------------------------------
// The evaluator's specification.
// ---------------------------------------------------------------------------

/// Every answer that `f` gives to a number operation is the one that `sem`
/// gives: `f` computes the number semantics `sem`.
pub open spec fn agrees<N, F: Fn(NumberOp<N>) -> Value<N>>(f: F, sem: spec_fn(NumberOp<N>) -> Value<N>) -> bool {
    forall|op: NumberOp<N>, r: Value<N>| #[trigger] call_ensures(f, (op,), r) ==> r == sem(op)
}

/// `f` may be asked any number operation, and computes some number semantics.
pub open spec fn is_number_function<N, F: Fn(NumberOp<N>) -> Value<N>>(f: F) -> bool {
    &&& forall|op: NumberOp<N>| call_requires(f, (op,))
    &&& exists|sem: spec_fn(NumberOp<N>) -> Value<N>| agrees(f, sem)
}

pub open spec fn is_binary_operator(t: TokenType) -> bool {
    match t {
        TokenType::Plus | TokenType::Minus | TokenType::Star | TokenType::Slash | TokenType::EqualEqual
        | TokenType::BangEqual | TokenType::Greater | TokenType::GreaterEqual | TokenType::Less
        | TokenType::LessEqual => true,
        _ => false,
    }
}

pub open spec fn is_unary_operator(t: TokenType) -> bool {
    match t {
        TokenType::Minus | TokenType::Bang => true,
        _ => false,
    }
}

/// Every operator in `e` is one that the evaluator knows.
pub open spec fn well_formed(e: Expr) -> bool
    decreases e,
{
    match e {
        Expr::Binary { lhs, op, rhs } => is_binary_operator(op.token_type) && well_formed(*lhs)
            && well_formed(*rhs),
        Expr::Unary { op, rhs } => is_unary_operator(op.token_type) && well_formed(*rhs),
        Expr::Grouping { expr } => well_formed(*expr),
        Expr::Literal { .. } => true,
        Expr::Variable { .. } => true,
    }
}

/// Evaluating `e` with the global variables `globals` and the number
/// semantics `num` applies no operator that the evaluator does not know: an
/// operator is reached only when its operands have evaluated without error.
pub open spec fn reaches_known_operators<N>(
    e: Expr,
    globals: Map<Seq<char>, ValueModel<N>>,
    num: spec_fn(NumberOp<N>) -> Value<N>,
) -> bool
    decreases e,
{
    match e {
        Expr::Binary { lhs, op, rhs } => {
            &&& reaches_known_operators(*lhs, globals, num)
            &&& spec_evaluate(*lhs, globals, num) is Ok ==> {
                &&& reaches_known_operators(*rhs, globals, num)
                &&& spec_evaluate(*rhs, globals, num) is Ok ==> is_binary_operator(op.token_type)
            }
        },
        Expr::Unary { op, rhs } => {
            &&& reaches_known_operators(*rhs, globals, num)
            &&& spec_evaluate(*rhs, globals, num) is Ok ==> is_unary_operator(op.token_type)
        },
        Expr::Grouping { expr } => reaches_known_operators(*expr, globals, num),
        Expr::Literal { .. } => true,
        Expr::Variable { .. } => true,
    }
}

/// A well-formed expression reaches no unknown operator, whatever the
/// variables and the numbers.
pub proof fn lemma_well_formed_reaches_known<N>(
    e: Expr,
    globals: Map<Seq<char>, ValueModel<N>>,
    num: spec_fn(NumberOp<N>) -> Value<N>,
)
    requires
        well_formed(e),
    ensures
        reaches_known_operators(e, globals, num),
    decreases e,
{
    match e {
        Expr::Binary { lhs, op, rhs } => {
            lemma_well_formed_reaches_known(*lhs, globals, num);
            lemma_well_formed_reaches_known(*rhs, globals, num);
        },
        Expr::Unary { op, rhs } => {
            lemma_well_formed_reaches_known(*rhs, globals, num);
        },
        Expr::Grouping { expr } => {
            lemma_well_formed_reaches_known(*expr, globals, num);
        },
        _ => {},
    }
}

/// The error for the binary operator `op` applied to operands it does not take.
pub open spec fn binary_type_error(op: Token) -> RuntimeErrorModel {
    RuntimeErrorModel::TypeError(op, "Unsupported operand types for '"@ + op.lexeme@ + "'"@)
}

/// The error for the unary operator `op` applied to an operand it does not take.
pub open spec fn unary_type_error(op: Token) -> RuntimeErrorModel {
    RuntimeErrorModel::TypeError(op, "Unsupported operand type for unary '"@ + op.lexeme@ + "'"@)
}

/// The value of a literal.
pub open spec fn literal_value<N>(l: Literal, num: spec_fn(NumberOp<N>) -> Value<N>) -> ValueModel<N> {
    match l {
        Literal::Identifier(s) => ValueModel::Identifier(s@),
        Literal::String(s) => ValueModel::String(s@),
        Literal::Number(s) => num(NumberOp::Parse(s))@,
        Literal::Boolean(b) => ValueModel::Boolean(b),
        Literal::Nil => ValueModel::Nil,
    }
}

/// The binary operator `op` applied to `a` and `b`.
pub open spec fn apply_binary<N>(
    op: Token,
    a: ValueModel<N>,
    b: ValueModel<N>,
    num: spec_fn(NumberOp<N>) -> Value<N>,
) -> Result<ValueModel<N>, RuntimeErrorModel> {
    match (op.token_type, a, b) {
        (TokenType::Plus, ValueModel::Number(x), ValueModel::Number(y)) => Ok(num(NumberOp::Add(x, y))@),
        (TokenType::Plus, ValueModel::String(x), ValueModel::String(y)) => Ok(ValueModel::String(x + y)),
        (TokenType::Minus, ValueModel::Number(x), ValueModel::Number(y)) => Ok(
            num(NumberOp::Subtract(x, y))@,
        ),
        (TokenType::Star, ValueModel::Number(x), ValueModel::Number(y)) => Ok(
            num(NumberOp::Multiply(x, y))@,
        ),
        (TokenType::Slash, ValueModel::Number(x), ValueModel::Number(y)) => Ok(num(NumberOp::Divide(x, y))@),
        (TokenType::EqualEqual, ValueModel::Number(x), ValueModel::Number(y)) => Ok(
            num(NumberOp::Equal(x, y))@,
        ),
        (TokenType::EqualEqual, _, _) => Ok(ValueModel::Boolean(a == b)),
        (TokenType::BangEqual, ValueModel::Number(x), ValueModel::Number(y)) => Ok(
            num(NumberOp::NotEqual(x, y))@,
        ),
        (TokenType::BangEqual, _, _) => Ok(ValueModel::Boolean(a != b)),
        (TokenType::Greater, ValueModel::Number(x), ValueModel::Number(y)) => Ok(
            num(NumberOp::Greater(x, y))@,
        ),
        (TokenType::GreaterEqual, ValueModel::Number(x), ValueModel::Number(y)) => Ok(
            num(NumberOp::GreaterEqual(x, y))@,
        ),
        (TokenType::Less, ValueModel::Number(x), ValueModel::Number(y)) => Ok(num(NumberOp::Less(x, y))@),
        (TokenType::LessEqual, ValueModel::Number(x), ValueModel::Number(y)) => Ok(
            num(NumberOp::LessEqual(x, y))@,
        ),
        _ => Err(binary_type_error(op)),
    }
}

/// The unary operator `op` applied to `a`.
pub open spec fn apply_unary<N>(op: Token, a: ValueModel<N>, num: spec_fn(NumberOp<N>) -> Value<N>) -> Result<
    ValueModel<N>,
    RuntimeErrorModel,
> {
    match (op.token_type, a) {
        (TokenType::Minus, ValueModel::Number(x)) => Ok(num(NumberOp::Negate(x))@),
        (TokenType::Bang, ValueModel::Boolean(b)) => Ok(ValueModel::Boolean(!b)),
        _ => Err(unary_type_error(op)),
    }
}

/// The value of `e` with the global variables `globals`, where `num` answers
/// the operations on numbers. The left operand is evaluated before the right
/// one, and the first error wins.
pub open spec fn spec_evaluate<N>(
    e: Expr,
    globals: Map<Seq<char>, ValueModel<N>>,
    num: spec_fn(NumberOp<N>) -> Value<N>,
) -> Result<ValueModel<N>, RuntimeErrorModel>
    decreases e,
{
    match e {
        Expr::Binary { lhs, op, rhs } => match spec_evaluate(*lhs, globals, num) {
            Err(err) => Err(err),
            Ok(a) => match spec_evaluate(*rhs, globals, num) {
                Err(err) => Err(err),
                Ok(b) => apply_binary(op, a, b, num),
            },
        },
        Expr::Unary { op, rhs } => match spec_evaluate(*rhs, globals, num) {
            Err(err) => Err(err),
            Ok(a) => apply_unary(op, a, num),
        },
        Expr::Grouping { expr } => spec_evaluate(*expr, globals, num),
        Expr::Literal { literal } => Ok(literal_value(literal, num)),
        Expr::Variable { name } => if globals.contains_key(name.lexeme@) {
            Ok(globals[name.lexeme@])
        } else {
            Err(RuntimeErrorModel::NameError(name))
        },
    }
}

/// The model of an evaluation's result.
pub open spec fn value_result_model<N>(r: Result<Value<N>, RuntimeError>) -> Result<ValueModel<N>, RuntimeErrorModel> {
    match r {
        Ok(v) => Ok(v@),
        Err(e) => Err(e@),
    }
}

/// On operands that are not both numbers, `!=` gives the opposite of `==`.
pub proof fn lemma_not_equal_is_negation<N>(
    eq: Token,
    ne: Token,
    a: ValueModel<N>,
    b: ValueModel<N>,
    num: spec_fn(NumberOp<N>) -> Value<N>,
)
    requires
        eq.token_type == TokenType::EqualEqual,
        ne.token_type == TokenType::BangEqual,
        !(a is Number && b is Number),
    ensures
        apply_binary(eq, a, b, num) == Ok::<ValueModel<N>, RuntimeErrorModel>(ValueModel::Boolean(a == b)),
        apply_binary(ne, a, b, num) == Ok::<ValueModel<N>, RuntimeErrorModel>(ValueModel::Boolean(!(a == b))),
{
}

/// `==` on operands that are not both numbers is an equivalence: every such
/// value equals itself, and the order of the operands does not matter.
pub proof fn lemma_equality_reflexive_symmetric<N>(
    eq: Token,
    a: ValueModel<N>,
    b: ValueModel<N>,
    num: spec_fn(NumberOp<N>) -> Value<N>,
)
    requires
        eq.token_type == TokenType::EqualEqual,
        !(a is Number),
    ensures
        apply_binary(eq, a, a, num) == Ok::<ValueModel<N>, RuntimeErrorModel>(ValueModel::Boolean(true)),
        apply_binary(eq, a, b, num) == apply_binary(eq, b, a, num),
{
}

/// A grouping evaluates to what the grouped expression evaluates to.
pub proof fn lemma_grouping_transparent<N>(
    e: Expr,
    globals: Map<Seq<char>, ValueModel<N>>,
    num: spec_fn(NumberOp<N>) -> Value<N>,
)
    ensures
        spec_evaluate(Expr::Grouping { expr: Box::new(e) }, globals, num) == spec_evaluate(e, globals, num),
{
}

/// The result of the binary expression `l op r`.
pub open spec fn binary_result<N>(
    l: Expr,
    op: Token,
    r: Expr,
    globals: Map<Seq<char>, ValueModel<N>>,
    num: spec_fn(NumberOp<N>) -> Value<N>,
) -> Result<ValueModel<N>, RuntimeErrorModel> {
    spec_evaluate(Expr::Binary { lhs: Box::new(l), op, rhs: Box::new(r) }, globals, num)
}

/// The result of the unary expression `op r`.
pub open spec fn unary_result<N>(
    op: Token,
    r: Expr,
    globals: Map<Seq<char>, ValueModel<N>>,
    num: spec_fn(NumberOp<N>) -> Value<N>,
) -> Result<ValueModel<N>, RuntimeErrorModel> {
    spec_evaluate(Expr::Unary { op, rhs: Box::new(r) }, globals, num)
}

/// On two numbers each operator asks its own operation on numbers: `+` the
/// sum, `-` the difference, `*` the product, `/` the quotient, `>` the strict
/// comparison (so equal numbers are not `>` one another), `>=`, `<` and `<=`
/// their comparisons, `==` and `!=` equality and inequality.
pub proof fn lemma_operators_on_numbers<N>(
    l: Expr,
    op: Token,
    r: Expr,
    globals: Map<Seq<char>, ValueModel<N>>,
    num: spec_fn(NumberOp<N>) -> Value<N>,
    x: N,
    y: N,
)
    requires
        spec_evaluate(l, globals, num) == Ok::<ValueModel<N>, RuntimeErrorModel>(ValueModel::Number(x)),
        spec_evaluate(r, globals, num) == Ok::<ValueModel<N>, RuntimeErrorModel>(ValueModel::Number(y)),
    ensures
        op.token_type is Plus ==> binary_result(l, op, r, globals, num) == Ok::<ValueModel<N>, RuntimeErrorModel>(
            num(NumberOp::Add(x, y)).view(),
        ),
        op.token_type is Minus ==> binary_result(l, op, r, globals, num) == Ok::<ValueModel<N>, RuntimeErrorModel>(
            num(NumberOp::Subtract(x, y)).view(),
        ),
        op.token_type is Star ==> binary_result(l, op, r, globals, num) == Ok::<ValueModel<N>, RuntimeErrorModel>(
            num(NumberOp::Multiply(x, y)).view(),
        ),
        op.token_type is Slash ==> binary_result(l, op, r, globals, num) == Ok::<ValueModel<N>, RuntimeErrorModel>(
            num(NumberOp::Divide(x, y)).view(),
        ),
        op.token_type is Greater ==> binary_result(l, op, r, globals, num) == Ok::<ValueModel<N>, RuntimeErrorModel>(
            num(NumberOp::Greater(x, y)).view(),
        ),
        op.token_type is GreaterEqual ==> binary_result(l, op, r, globals, num) == Ok::<
            ValueModel<N>,
            RuntimeErrorModel,
        >(num(NumberOp::GreaterEqual(x, y)).view()),
        op.token_type is Less ==> binary_result(l, op, r, globals, num) == Ok::<ValueModel<N>, RuntimeErrorModel>(
            num(NumberOp::Less(x, y)).view(),
        ),
        op.token_type is LessEqual ==> binary_result(l, op, r, globals, num) == Ok::<ValueModel<N>, RuntimeErrorModel>(
            num(NumberOp::LessEqual(x, y)).view(),
        ),
        op.token_type is EqualEqual ==> binary_result(l, op, r, globals, num) == Ok::<ValueModel<N>, RuntimeErrorModel>(
            num(NumberOp::Equal(x, y)).view(),
        ),
        op.token_type is BangEqual ==> binary_result(l, op, r, globals, num) == Ok::<ValueModel<N>, RuntimeErrorModel>(
            num(NumberOp::NotEqual(x, y)).view(),
        ),
{
}

/// On two strings `+` concatenates them, `==` and `!=` compare them, and the
/// other arithmetic and comparison operators are type errors.
pub proof fn lemma_operators_on_strings<N>(
    l: Expr,
    op: Token,
    r: Expr,
    globals: Map<Seq<char>, ValueModel<N>>,
    num: spec_fn(NumberOp<N>) -> Value<N>,
    a: Seq<char>,
    b: Seq<char>,
)
    requires
        spec_evaluate(l, globals, num) == Ok::<ValueModel<N>, RuntimeErrorModel>(ValueModel::String(a)),
        spec_evaluate(r, globals, num) == Ok::<ValueModel<N>, RuntimeErrorModel>(ValueModel::String(b)),
    ensures
        op.token_type is Plus ==> binary_result(l, op, r, globals, num) == Ok::<ValueModel<N>, RuntimeErrorModel>(
            ValueModel::String(a + b),
        ),
        op.token_type is EqualEqual ==> binary_result(l, op, r, globals, num) == Ok::<ValueModel<N>, RuntimeErrorModel>(
            ValueModel::Boolean(a == b),
        ),
        op.token_type is BangEqual ==> binary_result(l, op, r, globals, num) == Ok::<ValueModel<N>, RuntimeErrorModel>(
            ValueModel::Boolean(a != b),
        ),
        (op.token_type is Minus || op.token_type is Star || op.token_type is Slash || op.token_type is Greater
            || op.token_type is GreaterEqual || op.token_type is Less || op.token_type is LessEqual)
            ==> binary_result(l, op, r, globals, num) == Err::<ValueModel<N>, RuntimeErrorModel>(
            RuntimeErrorModel::TypeError(op, "Unsupported operand types for '"@ + op.lexeme@ + "'"@),
        ),
{
}

/// On two values that are not both numbers, `==` gives whether they are the
/// same value and `!=` the opposite; `+` is a type error unless both are
/// strings, and `-`, `*`, `/` and the comparisons are type errors.
pub proof fn lemma_operators_on_other_values<N>(
    l: Expr,
    op: Token,
    r: Expr,
    globals: Map<Seq<char>, ValueModel<N>>,
    num: spec_fn(NumberOp<N>) -> Value<N>,
    a: ValueModel<N>,
    b: ValueModel<N>,
)
    requires
        spec_evaluate(l, globals, num) == Ok::<ValueModel<N>, RuntimeErrorModel>(a),
        spec_evaluate(r, globals, num) == Ok::<ValueModel<N>, RuntimeErrorModel>(b),
        !(a is Number && b is Number),
    ensures
        op.token_type is EqualEqual ==> binary_result(l, op, r, globals, num) == Ok::<ValueModel<N>, RuntimeErrorModel>(
            ValueModel::Boolean(a == b),
        ),
        op.token_type is BangEqual ==> binary_result(l, op, r, globals, num) == Ok::<ValueModel<N>, RuntimeErrorModel>(
            ValueModel::Boolean(a != b),
        ),
        (op.token_type is Plus && !(a is String && b is String) || op.token_type is Minus || op.token_type is Star
            || op.token_type is Slash || op.token_type is Greater || op.token_type is GreaterEqual
            || op.token_type is Less || op.token_type is LessEqual) ==> binary_result(l, op, r, globals, num)
            == Err::<ValueModel<N>, RuntimeErrorModel>(
            RuntimeErrorModel::TypeError(op, "Unsupported operand types for '"@ + op.lexeme@ + "'"@),
        ),
{
}

/// A binary expression fails with its left operand's error, whatever the
/// operator and the right operand; else with its right operand's error.
pub proof fn lemma_binary_operand_errors<N>(
    l: Expr,
    op: Token,
    r: Expr,
    globals: Map<Seq<char>, ValueModel<N>>,
    num: spec_fn(NumberOp<N>) -> Value<N>,
)
    ensures
        spec_evaluate(l, globals, num) is Err ==> binary_result(l, op, r, globals, num) == spec_evaluate(
            l,
            globals,
            num,
        ),
        spec_evaluate(l, globals, num) is Ok && spec_evaluate(r, globals, num) is Err ==> binary_result(
            l,
            op,
            r,
            globals,
            num,
        ) == spec_evaluate(r, globals, num),
{
}

/// `!` negates a boolean and is a type error on anything else; `-` asks the
/// negation of a number and is a type error on anything else; a failing
/// operand's error is the result.
pub proof fn lemma_unary_operators<N>(
    op: Token,
    r: Expr,
    globals: Map<Seq<char>, ValueModel<N>>,
    num: spec_fn(NumberOp<N>) -> Value<N>,
)
    ensures
        spec_evaluate(r, globals, num) is Err ==> unary_result(op, r, globals, num) == spec_evaluate(r, globals, num),
        op.token_type is Bang ==> (spec_evaluate(r, globals, num) matches Ok(ValueModel::Boolean(b))
            ==> unary_result(op, r, globals, num) == Ok::<ValueModel<N>, RuntimeErrorModel>(ValueModel::Boolean(!b))),
        spec_evaluate(r, globals, num) matches Ok(a) && !(a is Boolean) && op.token_type is Bang ==> unary_result(
            op,
            r,
            globals,
            num,
        ) == Err::<ValueModel<N>, RuntimeErrorModel>(
            RuntimeErrorModel::TypeError(op, "Unsupported operand type for unary '"@ + op.lexeme@ + "'"@),
        ),
        op.token_type is Minus ==> (spec_evaluate(r, globals, num) matches Ok(ValueModel::Number(x))
            ==> unary_result(op, r, globals, num) == Ok::<ValueModel<N>, RuntimeErrorModel>(num(NumberOp::Negate(x)).view())),
        spec_evaluate(r, globals, num) matches Ok(a) && !(a is Number) && op.token_type is Minus ==> unary_result(
            op,
            r,
            globals,
            num,
        ) == Err::<ValueModel<N>, RuntimeErrorModel>(
            RuntimeErrorModel::TypeError(op, "Unsupported operand type for unary '"@ + op.lexeme@ + "'"@),
        ),
{
}

/// `!!e` is `e` for an expression `e` that evaluates to a boolean, and
/// `!e` is never the same boolean as `e`.
pub proof fn lemma_double_negation<N>(
    bang1: Token,
    bang2: Token,
    e: Expr,
    globals: Map<Seq<char>, ValueModel<N>>,
    num: spec_fn(NumberOp<N>) -> Value<N>,
    b: bool,
)
    requires
        bang1.token_type is Bang,
        bang2.token_type is Bang,
        spec_evaluate(e, globals, num) == Ok::<ValueModel<N>, RuntimeErrorModel>(ValueModel::Boolean(b)),
    ensures
        unary_result(bang1, Expr::Unary { op: bang2, rhs: Box::new(e) }, globals, num) == spec_evaluate(
            e,
            globals,
            num,
        ),
        unary_result(bang2, e, globals, num) != spec_evaluate(e, globals, num),
{
    assert(unary_result(bang2, e, globals, num) == Ok::<ValueModel<N>, RuntimeErrorModel>(ValueModel::Boolean(!b)));
}

/// A literal evaluates to its value (a number literal to the number that the
/// caller reads from its text), and a variable to the value it holds, or to
/// a name error when it holds none.
pub proof fn lemma_literals_and_variables<N>(
    literal: Literal,
    name: Token,
    globals: Map<Seq<char>, ValueModel<N>>,
    num: spec_fn(NumberOp<N>) -> Value<N>,
)
    ensures
        literal matches Literal::Number(t) ==> spec_evaluate(Expr::Literal { literal }, globals, num) == Ok::<
            ValueModel<N>,
            RuntimeErrorModel,
        >(num(NumberOp::Parse(t))@),
        literal matches Literal::String(t) ==> spec_evaluate(Expr::Literal { literal }, globals, num) == Ok::<
            ValueModel<N>,
            RuntimeErrorModel,
        >(ValueModel::String(t@)),
        literal matches Literal::Boolean(b) ==> spec_evaluate(Expr::Literal { literal }, globals, num) == Ok::<
            ValueModel<N>,
            RuntimeErrorModel,
        >(ValueModel::Boolean(b)),
        literal is Nil ==> spec_evaluate(Expr::Literal { literal }, globals, num) == Ok::<
            ValueModel<N>,
            RuntimeErrorModel,
        >(ValueModel::Nil),
        globals.contains_key(name.lexeme@) ==> spec_evaluate(Expr::Variable { name }, globals, num) == Ok::<
            ValueModel<N>,
            RuntimeErrorModel,
        >(globals[name.lexeme@]),
        !globals.contains_key(name.lexeme@) ==> spec_evaluate(Expr::Variable { name }, globals, num) == Err::<
            ValueModel<N>,
            RuntimeErrorModel,
        >(RuntimeErrorModel::NameError(name)),
{
}

// ---------------------------------------------------------------------------
// The evaluator.
// ---------------------------------------------------------------------------

/// Asks `numbers` the operation `op`.
fn ask<N, F: Fn(NumberOp<N>) -> Value<N>>(numbers: &F, op: NumberOp<N>) -> (r: Value<N>)
    requires
        forall|op: NumberOp<N>| call_requires(*numbers, (op,)),
    ensures
        forall|sem: spec_fn(NumberOp<N>) -> Value<N>| #[trigger] agrees(*numbers, sem) ==> r == sem(op),
{
    numbers(op)
}

/// The type error of the operator `op`: `prefix`, then the operator, then `'`.
fn type_error(op: &Token, prefix: &str) -> (r: RuntimeError)
    ensures
        r@ == RuntimeErrorModel::TypeError(*op, prefix@ + op.lexeme@ + "'"@),
{
    let mut message = String::from_str(prefix);
    message.append(op.lexeme.as_str());
    message.append("'");
    RuntimeError::TypeError(op.clone(), message)
}

fn binary_value<N: Copy, F: Fn(NumberOp<N>) -> Value<N>>(
    op: Token,
    op1: Value<N>,
    op2: Value<N>,
    numbers: &F,
) -> (r: Result<Value<N>, RuntimeError>)
    requires
        forall|op: NumberOp<N>| call_requires(*numbers, (op,)),
        is_binary_operator(op.token_type),
    ensures
        forall|sem: spec_fn(NumberOp<N>) -> Value<N>| #[trigger] agrees(*numbers, sem)
            ==> value_result_model(r) == apply_binary(op, op1@, op2@, sem),
{
    let ghost a = op1@;
    let ghost b = op2@;
    match op.token_type {
        TokenType::Plus => match (op1, op2) {
            (Value::Number(x), Value::Number(y)) => Ok(ask(numbers, NumberOp::Add(x, y))),
            (Value::String(x), Value::String(y)) => Ok(Value::String(x.concat(y.as_str()))),
            _ => Err(type_error(&op, "Unsupported operand types for '")),
        },
        TokenType::Minus => match (op1, op2) {
            (Value::Number(x), Value::Number(y)) => Ok(ask(numbers, NumberOp::Subtract(x, y))),
            _ => Err(type_error(&op, "Unsupported operand types for '")),
        },
        TokenType::Star => match (op1, op2) {
            (Value::Number(x), Value::Number(y)) => Ok(ask(numbers, NumberOp::Multiply(x, y))),
            _ => Err(type_error(&op, "Unsupported operand types for '")),
        },
        TokenType::Slash => match (op1, op2) {
            (Value::Number(x), Value::Number(y)) => Ok(ask(numbers, NumberOp::Divide(x, y))),
            _ => Err(type_error(&op, "Unsupported operand types for '")),
        },
        TokenType::EqualEqual => match (op1, op2) {
            (Value::Number(x), Value::Number(y)) => Ok(ask(numbers, NumberOp::Equal(x, y))),
            (x, y) => Ok(Value::Boolean(values_equal(&x, &y))),
        },
        TokenType::BangEqual => match (op1, op2) {
            (Value::Number(x), Value::Number(y)) => Ok(ask(numbers, NumberOp::NotEqual(x, y))),
            (x, y) => Ok(Value::Boolean(!values_equal(&x, &y))),
        },
        TokenType::Greater => match (op1, op2) {
            (Value::Number(x), Value::Number(y)) => Ok(ask(numbers, NumberOp::Greater(x, y))),
            _ => Err(type_error(&op, "Unsupported operand types for '")),
        },
        TokenType::GreaterEqual => match (op1, op2) {
            (Value::Number(x), Value::Number(y)) => Ok(ask(numbers, NumberOp::GreaterEqual(x, y))),
            _ => Err(type_error(&op, "Unsupported operand types for '")),
        },
        TokenType::Less => match (op1, op2) {
            (Value::Number(x), Value::Number(y)) => Ok(ask(numbers, NumberOp::Less(x, y))),
            _ => Err(type_error(&op, "Unsupported operand types for '")),
        },
        TokenType::LessEqual => match (op1, op2) {
            (Value::Number(x), Value::Number(y)) => Ok(ask(numbers, NumberOp::LessEqual(x, y))),
            _ => Err(type_error(&op, "Unsupported operand types for '")),
        },
        _ => {
            assert(false);
            Err(type_error(&op, "Unsupported operand types for '"))
        },
    }
}

/// Whether two values, not both numbers, are equal.
fn values_equal<N>(a: &Value<N>, b: &Value<N>) -> (r: bool)
    requires
        !(*a is Number && *b is Number),
    ensures
        r == (a@ == b@),
{
    match (a, b) {
        (Value::Identifier(x), Value::Identifier(y)) => *x == *y,
        (Value::String(x), Value::String(y)) => *x == *y,
        (Value::Boolean(x), Value::Boolean(y)) => *x == *y,
        (Value::Nil, Value::Nil) => true,
        _ => false,
    }
}

impl Expr {
    /// The value of the expression in `interpreter_state`, where `numbers`
    /// answers the operations on numbers: for every number semantics that
    /// `numbers` computes, the value that `spec_evaluate` gives.
    pub fn evaluate<N: Copy, F: Fn(NumberOp<N>) -> Value<N>>(
        self,
        interpreter_state: &mut InterpreterState<N>,
        numbers: &F,
    ) -> (r: Result<Value<N>, RuntimeError>)
        requires
            is_number_function(*numbers),
            forall|sem: spec_fn(NumberOp<N>) -> Value<N>| #[trigger] agrees(*numbers, sem)
                ==> reaches_known_operators(self, old(interpreter_state)@, sem),
        ensures
            *final(interpreter_state) == *old(interpreter_state),
            forall|sem: spec_fn(NumberOp<N>) -> Value<N>| #[trigger] agrees(*numbers, sem)
                ==> value_result_model(r) == spec_evaluate(self, old(interpreter_state)@, sem),
        decreases self,
    {
        let ghost g = interpreter_state@;
        let ghost whole = self;
        let ghost sem0 = choose|sem: spec_fn(NumberOp<N>) -> Value<N>| agrees(*numbers, sem);
        assert(agrees(*numbers, sem0));
        match self {
            Expr::Binary { lhs, op, rhs } => {
                let ghost (l, rr) = (*lhs, *rhs);
                assert forall|sem: spec_fn(NumberOp<N>) -> Value<N>| #[trigger] agrees(*numbers, sem) implies reaches_known_operators(l, g, sem) by {}
                let op1 = match lhs.evaluate(interpreter_state, numbers) {
                    Ok(v) => v,
                    Err(e) => {
                        assert forall|sem: spec_fn(NumberOp<N>) -> Value<N>| #[trigger] agrees(*numbers, sem) implies value_result_model(
                            Err::<Value<N>, RuntimeError>(e),
                        ) == spec_evaluate(whole, g, sem) by {}
                        return Err(e);
                    },
                };
                assert forall|sem: spec_fn(NumberOp<N>) -> Value<N>| #[trigger] agrees(*numbers, sem) implies reaches_known_operators(rr, g, sem) by {}
                let op2 = match rhs.evaluate(interpreter_state, numbers) {
                    Ok(v) => v,
                    Err(e) => {
                        assert forall|sem: spec_fn(NumberOp<N>) -> Value<N>| #[trigger] agrees(*numbers, sem) implies value_result_model(
                            Err::<Value<N>, RuntimeError>(e),
                        ) == spec_evaluate(whole, g, sem) by {}
                        return Err(e);
                    },
                };
                assert(is_binary_operator(op.token_type));
                let ghost gop = op;
                let r = binary_value(op, op1, op2, numbers);
                assert forall|sem: spec_fn(NumberOp<N>) -> Value<N>| #[trigger] agrees(*numbers, sem) implies value_result_model(r)
                    == spec_evaluate(whole, g, sem) by {
                    assert(value_result_model(r) == apply_binary(gop, op1@, op2@, sem));
                }
                r
            },
            Expr::Unary { op, rhs } => {
                let ghost rr = *rhs;
                assert forall|sem: spec_fn(NumberOp<N>) -> Value<N>| #[trigger] agrees(*numbers, sem) implies reaches_known_operators(rr, g, sem) by {}
                let literal = match rhs.evaluate(interpreter_state, numbers) {
                    Ok(v) => v,
                    Err(e) => {
                        assert forall|sem: spec_fn(NumberOp<N>) -> Value<N>| #[trigger] agrees(*numbers, sem) implies value_result_model(
                            Err::<Value<N>, RuntimeError>(e),
                        ) == spec_evaluate(whole, g, sem) by {}
                        return Err(e);
                    },
                };
                assert(is_unary_operator(op.token_type));
                match op.token_type {
                    TokenType::Minus => match literal {
                        Value::Number(val) => Ok(ask(numbers, NumberOp::Negate(val))),
                        _ => Err(type_error(&op, "Unsupported operand type for unary '")),
                    },
                    TokenType::Bang => match literal {
                        Value::Boolean(val) => Ok(Value::Boolean(!val)),
                        _ => Err(type_error(&op, "Unsupported operand type for unary '")),
                    },
                    _ => {
                        assert(false);
                        Err(type_error(&op, "Unsupported operand type for unary '"))
                    },
                }
            },
            Expr::Grouping { expr } => {
                let ghost inner = *expr;
                assert forall|sem: spec_fn(NumberOp<N>) -> Value<N>| #[trigger] agrees(*numbers, sem) implies reaches_known_operators(inner, g, sem) by {}
                expr.evaluate(interpreter_state, numbers)
            },
            Expr::Literal { literal } => Ok(
                match literal {
                    Literal::Identifier(s) => Value::Identifier(s),
                    Literal::String(s) => Value::String(s),
                    Literal::Number(s) => ask(numbers, NumberOp::Parse(s)),
                    Literal::Boolean(b) => Value::Boolean(b),
                    Literal::Nil => Value::Nil,
                },
            ),
            Expr::Variable { name } => {
                match interpreter_state.globals.get(name.lexeme.as_str()) {
                    Some(val) => Ok(val.clone()),
                    None => Err(RuntimeError::NameError(name)),
                }
            },
        }
    }
}

} // verus!
