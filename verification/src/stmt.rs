//! Statements and their execution.

use vstd::prelude::*;
use crate::expr::{
    agrees, is_number_function, lemma_well_formed_reaches_known, reaches_known_operators,
    spec_evaluate, well_formed, Expr, InterpreterState, NumberOp, RuntimeError, RuntimeErrorModel,
    Value, ValueModel,
};
use crate::tokenizer::Token;

verus! {

/// A statement of the language.
#[derive(Debug, PartialEq)]
pub enum Stmt {
    Expression { expr: Expr },
    Print { expr: Expr },
    Var { token: Token, intializer: Expr },
}

/// Every expression in the statement is well formed.
pub open spec fn stmt_well_formed(s: Stmt) -> bool {
    match s {
        Stmt::Expression { expr } => well_formed(expr),
        Stmt::Print { expr } => well_formed(expr),
        Stmt::Var { intializer, .. } => well_formed(intializer),
    }
}

/// The expression that a statement evaluates.
pub open spec fn stmt_expr(s: Stmt) -> Expr {
    match s {
        Stmt::Expression { expr } => expr,
        Stmt::Print { expr } => expr,
        Stmt::Var { intializer, .. } => intializer,
    }
}

/// A well-formed statement reaches no unknown operator, whatever the
/// variables and the numbers.
pub proof fn lemma_stmt_well_formed_reaches_known<N>(
    s: Stmt,
    globals: Map<Seq<char>, ValueModel<N>>,
    num: spec_fn(NumberOp<N>) -> Value<N>,
)
    requires
        stmt_well_formed(s),
    ensures
        reaches_known_operators(stmt_expr(s), globals, num),
{
    lemma_well_formed_reaches_known(stmt_expr(s), globals, num);
}

/// What running a statement gives: the value it prints, if it prints one.
pub type StmtOutcome<N> = Result<Option<Value<N>>, RuntimeError>;

/// What running a statement gives, with strings as sequences of characters.
pub type StmtOutcomeModel<N> = Result<Option<ValueModel<N>>, RuntimeErrorModel>;

pub open spec fn outcome_model<N>(r: StmtOutcome<N>) -> StmtOutcomeModel<N> {
    match r {
        Ok(Some(v)) => Ok(Some(v@)),
        Ok(None) => Ok(None),
        Err(e) => Err(e@),
    }
}

/// Running `s` with the global variables `globals`: what it gives, and the
/// global variables afterwards.
pub open spec fn spec_interpret<N>(
    s: Stmt,
    globals: Map<Seq<char>, ValueModel<N>>,
    num: spec_fn(NumberOp<N>) -> Value<N>,
) -> (StmtOutcomeModel<N>, Map<Seq<char>, ValueModel<N>>) {
    match s {
        Stmt::Expression { expr } => match spec_evaluate(expr, globals, num) {
            Ok(_) => (Ok(None), globals),
            Err(e) => (Err(e), globals),
        },
        Stmt::Print { expr } => match spec_evaluate(expr, globals, num) {
            Ok(v) => (Ok(Some(v)), globals),
            Err(e) => (Err(e), globals),
        },
        Stmt::Var { token, intializer } => match spec_evaluate(intializer, globals, num) {
            Ok(v) => (Ok(None), globals.insert(token.lexeme@, v)),
            Err(e) => (Err(e), globals),
        },
    }
}

/// Reading a variable gives back the value that a `var` statement gave it: once
/// `var x = init;` has run without error, evaluating `x` gives what `init`
/// gave, and the statement itself prints nothing.
pub proof fn lemma_var_then_read<N>(
    token: Token,
    init: Expr,
    name: Token,
    globals: Map<Seq<char>, ValueModel<N>>,
    num: spec_fn(NumberOp<N>) -> Value<N>,
)
    requires
        name.lexeme@ == token.lexeme@,
        spec_evaluate(init, globals, num) is Ok,
    ensures
        ({
            let (o, g) = spec_interpret(Stmt::Var { token, intializer: init }, globals, num);
            &&& o == Ok::<Option<ValueModel<N>>, RuntimeErrorModel>(None)
            &&& spec_evaluate(Expr::Variable { name }, g, num) == spec_evaluate(init, globals, num)
        }),
{
}

/// Running a statement changes no variable other than the one a `var`
/// statement defines.
pub proof fn lemma_interpret_frame<N>(
    s: Stmt,
    globals: Map<Seq<char>, ValueModel<N>>,
    num: spec_fn(NumberOp<N>) -> Value<N>,
    k: Seq<char>,
)
    requires
        !(s matches Stmt::Var { token, .. } && token.lexeme@ == k),
    ensures
        spec_interpret(s, globals, num).1.contains_key(k) == globals.contains_key(k),
        globals.contains_key(k) ==> spec_interpret(s, globals, num).1[k] == globals[k],
{
}

/// What each kind of statement gives: a `print` statement gives the value of
/// its expression, whatever that value is; an expression statement gives
/// nothing; a `var` statement gives nothing and defines its variable with the
/// value of its initializer. A statement whose expression fails gives the
/// error and changes no variable.
pub proof fn lemma_statement_outcomes<N>(
    expr: Expr,
    token: Token,
    globals: Map<Seq<char>, ValueModel<N>>,
    num: spec_fn(NumberOp<N>) -> Value<N>,
)
    ensures
        spec_evaluate(expr, globals, num) matches Ok(v) ==> spec_interpret(Stmt::Print { expr }, globals, num) == (
            Ok::<Option<ValueModel<N>>, RuntimeErrorModel>(Some(v)),
            globals,
        ),
        spec_evaluate(expr, globals, num) is Ok ==> spec_interpret(Stmt::Expression { expr }, globals, num) == (
            Ok::<Option<ValueModel<N>>, RuntimeErrorModel>(None),
            globals,
        ),
        spec_evaluate(expr, globals, num) matches Ok(v) ==> spec_interpret(
            Stmt::Var { token, intializer: expr },
            globals,
            num,
        ) == (Ok::<Option<ValueModel<N>>, RuntimeErrorModel>(None), globals.insert(token.lexeme@, v)),
        spec_evaluate(expr, globals, num) matches Err(e) ==> {
            &&& spec_interpret(Stmt::Print { expr }, globals, num) == (
                Err::<Option<ValueModel<N>>, RuntimeErrorModel>(e),
                globals,
            )
            &&& spec_interpret(Stmt::Expression { expr }, globals, num) == (
                Err::<Option<ValueModel<N>>, RuntimeErrorModel>(e),
                globals,
            )
            &&& spec_interpret(Stmt::Var { token, intializer: expr }, globals, num) == (
                Err::<Option<ValueModel<N>>, RuntimeErrorModel>(e),
                globals,
            )
        },
{
}

impl Stmt {
    /// Runs the statement in `interpreter_state`, where `numbers` answers the
    /// operations on numbers. A `print` statement gives the value to print.
    /// For every number semantics that `numbers` computes, the outcome and the
    /// globals afterwards are those that `spec_interpret` gives.
    pub fn interpret<N: Copy, F: Fn(NumberOp<N>) -> Value<N>>(
        self,
        interpreter_state: &mut InterpreterState<N>,
        numbers: &F,
    ) -> (r: StmtOutcome<N>)
        requires
            is_number_function(*numbers),
            forall|sem: spec_fn(NumberOp<N>) -> Value<N>| #[trigger] agrees(*numbers, sem)
                ==> reaches_known_operators(stmt_expr(self), old(interpreter_state)@, sem),
        ensures
            forall|sem: spec_fn(NumberOp<N>) -> Value<N>| #[trigger] agrees(*numbers, sem)
                ==> (outcome_model(r), final(interpreter_state)@) == spec_interpret(
                self,
                old(interpreter_state)@,
                sem,
            ),
    {
        match self {
            Stmt::Expression { expr } => {
                match expr.evaluate(interpreter_state, numbers) {
                    Ok(_) => Ok(None),
                    Err(e) => Err(e),
                }
            },
            Stmt::Print { expr } => {
                match expr.evaluate(interpreter_state, numbers) {
                    Ok(v) => Ok(Some(v)),
                    Err(e) => Err(e),
                }
            },
            Stmt::Var { token, intializer } => {
                let literal = match intializer.evaluate(interpreter_state, numbers) {
                    Ok(v) => v,
                    Err(e) => return Err(e),
                };
                let ghost old_globals = interpreter_state.globals@;
                let ghost v = literal;
                interpreter_state.globals.insert(token.lexeme, literal);
                assert(interpreter_state@ =~= old_globals.map_values(|v: Value<N>| v@).insert(
                    token.lexeme@,
                    v@,
                ));
                Ok(None)
            },
        }
    }
}

} // verus!
