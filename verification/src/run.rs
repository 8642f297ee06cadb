//! Running a piece of source text: tokenize, parse, then run each statement.

use vstd::prelude::*;
use crate::expr::{agrees, is_number_function, reaches_known_operators, InterpreterState, NumberOp, Value, ValueModel};
use crate::parser::{has_eof_from, parse, spec_parse, ParserError, ParserErrorModel};
use crate::stmt::{
    lemma_stmt_well_formed_reaches_known, outcome_model, spec_interpret, stmt_expr, stmt_well_formed, Stmt,
    StmtOutcome, StmtOutcomeModel,
};
use crate::tokenizer::{
    char_info, lemma_tokenize_ends_with_eof, spec_tokenize, tokenize, tokens_model, Token, TokenTypeModel,
    TokenizerError, TokenizerErrorModel,
};

verus! {

/// What running a piece of source text gives.
#[derive(Debug, PartialEq)]
pub enum RunOutcome<N> {
    /// The text could not be tokenized; nothing ran.
    TokenizerFailed(TokenizerError),
    /// The tokens could not be parsed; nothing ran.
    ParserFailed(ParserError),
    /// What each statement gave, in order.
    Ran(Vec<StmtOutcome<N>>),
}

/// What running source text gives, with strings as sequences of characters.
pub enum RunOutcomeModel<N> {
    TokenizerFailed(TokenizerErrorModel),
    ParserFailed(ParserErrorModel),
    Ran(Seq<StmtOutcomeModel<N>>),
}

pub open spec fn run_outcome_model<N>(r: RunOutcome<N>) -> RunOutcomeModel<N> {
    match r {
        RunOutcome::TokenizerFailed(e) => RunOutcomeModel::TokenizerFailed(e@),
        RunOutcome::ParserFailed(e) => RunOutcomeModel::ParserFailed(e@),
        RunOutcome::Ran(v) => RunOutcomeModel::Ran(v@.map_values(|o: StmtOutcome<N>| outcome_model(o))),
    }
}

/// Running the statements `ss[i..]` one after the other, each in the globals
/// the previous one left: what each gives, and the globals at the end. A
/// statement that fails does not stop the ones after it.
pub open spec fn spec_run_statements<N>(
    ss: Seq<Stmt>,
    i: int,
    globals: Map<Seq<char>, ValueModel<N>>,
    num: spec_fn(NumberOp<N>) -> Value<N>,
) -> (Seq<StmtOutcomeModel<N>>, Map<Seq<char>, ValueModel<N>>)
    decreases ss.len() - i,
{
    if i < 0 || i >= ss.len() {
        (seq![], globals)
    } else {
        let (o, g) = spec_interpret(ss[i], globals, num);
        let (os, g2) = spec_run_statements(ss, i + 1, g, num);
        (seq![o] + os, g2)
    }
}

/// Running statements gives one outcome for each statement: a statement that
/// fails does not stop the ones after it.
pub proof fn lemma_one_outcome_per_statement<N>(
    ss: Seq<Stmt>,
    i: int,
    globals: Map<Seq<char>, ValueModel<N>>,
    num: spec_fn(NumberOp<N>) -> Value<N>,
)
    requires
        0 <= i <= ss.len(),
    ensures
        spec_run_statements(ss, i, globals, num).0.len() == ss.len() - i,
    decreases ss.len() - i,
{
    if i < ss.len() {
        let (o, g) = spec_interpret(ss[i], globals, num);
        lemma_one_outcome_per_statement(ss, i + 1, g, num);
    }
}

/// Parsing the tokens `ts` and running the statements: what it gives, and the
/// globals at the end.
pub open spec fn spec_run_tokens<N>(
    ts: Seq<Token>,
    globals: Map<Seq<char>, ValueModel<N>>,
    num: spec_fn(NumberOp<N>) -> Value<N>,
) -> (RunOutcomeModel<N>, Map<Seq<char>, ValueModel<N>>) {
    match spec_parse(ts) {
        Err(e) => (RunOutcomeModel::ParserFailed(e), globals),
        Ok(ss) => {
            let (os, g) = spec_run_statements(ss, 0, globals, num);
            (RunOutcomeModel::Ran(os), g)
        },
    }
}

/// Statements none of which is a `var` statement leave the globals as they
/// were, whatever each of them gives.
proof fn lemma_run_statements_keep_globals<N>(
    ss: Seq<Stmt>,
    i: int,
    globals: Map<Seq<char>, ValueModel<N>>,
    num: spec_fn(NumberOp<N>) -> Value<N>,
)
    requires
        forall|k: int| 0 <= k < ss.len() ==> !((#[trigger] ss[k]) is Var),
    ensures
        spec_run_statements(ss, i, globals, num).1 == globals,
    decreases ss.len() - i,
{
    if 0 <= i < ss.len() {
        let (o, g) = spec_interpret(ss[i], globals, num);
        assert(g == globals);
        lemma_run_statements_keep_globals(ss, i + 1, g, num);
    }
}

proof fn lemma_outcomes_from<N>(
    ss: Seq<Stmt>,
    i: int,
    globals: Map<Seq<char>, ValueModel<N>>,
    num: spec_fn(NumberOp<N>) -> Value<N>,
)
    requires
        0 <= i <= ss.len(),
        forall|k: int| 0 <= k < ss.len() ==> !((#[trigger] ss[k]) is Var),
    ensures
        spec_run_statements(ss, i, globals, num).0.len() == ss.len() - i,
        forall|k: int|
            i <= k < ss.len() ==> #[trigger] spec_run_statements(ss, i, globals, num).0[k - i] == spec_interpret(
                ss[k],
                globals,
                num,
            ).0,
    decreases ss.len() - i,
{
    if i < ss.len() {
        let (o, g) = spec_interpret(ss[i], globals, num);
        assert(g == globals);
        lemma_outcomes_from(ss, i + 1, g, num);
        let all = spec_run_statements(ss, i, globals, num).0;
        let rest = spec_run_statements(ss, i + 1, globals, num).0;
        assert(all == seq![o] + rest);
        assert forall|k: int| i <= k < ss.len() implies #[trigger] all[k - i] == spec_interpret(ss[k], globals, num).0 by {
            if k > i {
                assert(all[k - i] == rest[k - (i + 1)]);
            }
        }
    }
}

/// The statements that parsing gives run each in the globals as they were
/// before: the outcome of each is what running it alone gives, in order,
/// one for each statement, whatever the statements before it gave.
pub proof fn lemma_outcomes_are_statements_run_alone<N>(
    ss: Seq<Stmt>,
    globals: Map<Seq<char>, ValueModel<N>>,
    num: spec_fn(NumberOp<N>) -> Value<N>,
)
    requires
        forall|k: int| 0 <= k < ss.len() ==> !((#[trigger] ss[k]) is Var),
    ensures
        spec_run_statements(ss, 0, globals, num).0.len() == ss.len(),
        forall|k: int|
            0 <= k < ss.len() ==> #[trigger] spec_run_statements(ss, 0, globals, num).0[k] == spec_interpret(
                ss[k],
                globals,
                num,
            ).0,
{
    lemma_outcomes_from(ss, 0, globals, num);
    assert forall|k: int| 0 <= k < ss.len() implies #[trigger] spec_run_statements(ss, 0, globals, num).0[k]
        == spec_interpret(ss[k], globals, num).0 by {
        assert(spec_run_statements(ss, 0, globals, num).0[k - 0] == spec_interpret(ss[k], globals, num).0);
    }
}

/// Running tokens never changes the global variables: parsing gives no
/// `var` statement, and the other statements only read the globals.
pub proof fn lemma_run_keeps_globals<N>(
    ts: Seq<Token>,
    globals: Map<Seq<char>, ValueModel<N>>,
    num: spec_fn(NumberOp<N>) -> Value<N>,
)
    ensures
        spec_run_tokens(ts, globals, num).1 == globals,
{
    crate::parser::lemma_parse_well_formed(ts);
    if let Ok(ss) = spec_parse(ts) {
        lemma_run_statements_keep_globals(ss, 0, globals, num);
    }
}

/// Runs `source` in `interpreter_state`, where `numbers` answers the
/// operations on numbers: the source is tokenized, then parsed, then each
/// statement is run in turn; a `print` statement's value is in its outcome.
/// For every number semantics that `numbers` computes, the outcome and the
/// globals afterwards are those that `spec_run_tokens` gives on the tokens.
pub fn run<N: Copy, F: Fn(NumberOp<N>) -> Value<N>>(
    interpreter_state: &mut InterpreterState<N>,
    source: &String,
    numbers: &F,
) -> (r: RunOutcome<N>)
    requires
        source@.len() < usize::MAX / 4,
        is_number_function(*numbers),
    ensures
        final(interpreter_state)@ == old(interpreter_state)@,
        match spec_tokenize(source@, source@.map_values(|c: char| char_info(c))) {
            Err(e) => run_outcome_model(r) == RunOutcomeModel::<N>::TokenizerFailed(e)
                && final(interpreter_state)@ == old(interpreter_state)@,
            Ok(toks) => exists|ts: Seq<Token>|
                #[trigger] tokens_model(ts) == toks && forall|sem: spec_fn(NumberOp<N>) -> Value<N>|
                    #[trigger] agrees(*numbers, sem) ==> (run_outcome_model(r), final(interpreter_state)@)
                        == spec_run_tokens(ts, old(interpreter_state)@, sem),
        },
{
    let tokens = match tokenize(source) {
        Ok(tokens) => tokens,
        Err(err) => return RunOutcome::TokenizerFailed(err),
    };
    let ghost ts = tokens@;
    proof {
        lemma_tokenize_ends_with_eof(source@, source@.map_values(|c: char| char_info(c)));
        let last = (ts.len() - 1) as int;
        assert(tokens_model(ts)[last].token_type == TokenTypeModel::Eof);
        assert(ts[last].token_type is Eof);
        assert(has_eof_from(ts, 0));
        crate::parser::lemma_parse_stops_at_eof(ts);
    }
    let ghost g0 = interpreter_state@;
    let statements = match parse(tokens) {
        Ok(statements) => statements,
        Err(err) => {
            assert forall|sem: spec_fn(NumberOp<N>) -> Value<N>| #[trigger] agrees(*numbers, sem) implies (
            run_outcome_model(RunOutcome::<N>::ParserFailed(err)), interpreter_state@) == spec_run_tokens(
                ts,
                g0,
                sem,
            ) by {}
            return RunOutcome::ParserFailed(err);
        },
    };
    proof {
        crate::parser::lemma_parse_well_formed(ts);
    }
    let ghost ss = statements@;
    let mut outcomes: Vec<StmtOutcome<N>> = Vec::new();
    assert forall|sem: spec_fn(NumberOp<N>) -> Value<N>| #[trigger] agrees(*numbers, sem) implies
        spec_run_statements(ss, 0, g0, sem).0 == outcomes@.map_values(|o: StmtOutcome<N>| outcome_model(o))
            + spec_run_statements(ss, 0, g0, sem).0 by {
        assert(outcomes@.map_values(|o: StmtOutcome<N>| outcome_model(o)) + spec_run_statements(ss, 0, g0, sem).0
            =~= spec_run_statements(ss, 0, g0, sem).0);
    }
    for s in it: statements
        invariant
            is_number_function(*numbers),
            it.seq() == ss,
            forall|k: int| 0 <= k < ss.len() ==> stmt_well_formed(#[trigger] ss[k]),
            forall|sem: spec_fn(NumberOp<N>) -> Value<N>| #[trigger] agrees(*numbers, sem) ==> {
                &&& spec_run_statements(ss, 0, g0, sem).0 == outcomes@.map_values(
                    |o: StmtOutcome<N>| outcome_model(o),
                ) + spec_run_statements(ss, it.index(), interpreter_state@, sem).0
                &&& spec_run_statements(ss, 0, g0, sem).1 == spec_run_statements(
                    ss,
                    it.index(),
                    interpreter_state@,
                    sem,
                ).1
            },
    {
        let ghost i = it.index();
        let ghost g = interpreter_state@;
        let ghost before = outcomes@.map_values(|o: StmtOutcome<N>| outcome_model(o));
        assert(s == ss[i]);
        assert(stmt_well_formed(ss[i]));
        assert forall|sem: spec_fn(NumberOp<N>) -> Value<N>| #[trigger] agrees(*numbers, sem) implies
            reaches_known_operators(stmt_expr(s), g, sem) by {
            lemma_stmt_well_formed_reaches_known(s, g, sem);
        }
        let o = s.interpret(interpreter_state, numbers);
        outcomes.push(o);
        assert forall|sem: spec_fn(NumberOp<N>) -> Value<N>| #[trigger] agrees(*numbers, sem) implies {
            &&& spec_run_statements(ss, 0, g0, sem).0 == outcomes@.map_values(
                |o: StmtOutcome<N>| outcome_model(o),
            ) + spec_run_statements(ss, i + 1, interpreter_state@, sem).0
            &&& spec_run_statements(ss, 0, g0, sem).1 == spec_run_statements(
                ss,
                i + 1,
                interpreter_state@,
                sem,
            ).1
        } by {
            let rest = spec_run_statements(ss, i + 1, interpreter_state@, sem);
            assert(spec_run_statements(ss, i, g, sem).0 == seq![outcome_model(o)] + rest.0);
            assert(outcomes@.map_values(|o: StmtOutcome<N>| outcome_model(o)) =~= before.push(outcome_model(o)));
            assert(before + (seq![outcome_model(o)] + rest.0) =~= before.push(outcome_model(o)) + rest.0);
        }
    }
    assert forall|sem: spec_fn(NumberOp<N>) -> Value<N>| #[trigger] agrees(*numbers, sem) implies (
    run_outcome_model(RunOutcome::Ran(outcomes)), interpreter_state@) == spec_run_tokens(ts, g0, sem) by {
        assert(spec_run_statements(ss, ss.len() as int, interpreter_state@, sem).0 =~= Seq::<
            StmtOutcomeModel<N>,
        >::empty());
        assert(outcomes@.map_values(|o: StmtOutcome<N>| outcome_model(o)) + Seq::<StmtOutcomeModel<N>>::empty()
            =~= outcomes@.map_values(|o: StmtOutcome<N>| outcome_model(o)));
    }
    proof {
        let sem0 = choose|sem: spec_fn(NumberOp<N>) -> Value<N>| agrees(*numbers, sem);
        assert(agrees(*numbers, sem0));
        lemma_run_keeps_globals(ts, g0, sem0);
    }
    RunOutcome::Ran(outcomes)
}

} // verus!
