use vstd::prelude::*;
use crate::rational::Rational;
use crate::token::{Token, ErrorKind, Step};
use crate::tokenizer::{tokens_of, tokenize};
use crate::rpn::{postfix_of, to_rpn};
use crate::postfix::{eval_result, eval_trace, solve_rpn};
use crate::solver::{solve_result, solve_trace, solve_for_x};
use crate::tree::eval_tree;

verus! {

/// Whether the tokens hold an `=` or the unknown, and so ask to be solved.
pub open spec fn is_equation(t: Seq<Token>) -> bool {
    exists|i: int| 0 <= i < t.len() && (t[i] == Token::Equals || t[i] == Token::Variable)
}

/// The outcome of reading, converting and then solving or evaluating `s`.
pub open spec fn calc_result(s: Seq<char>) -> Result<Rational, ErrorKind> {
    match tokens_of(s) {
        Err(e) => Err(e),
        Ok(t) => match postfix_of(t) {
            Err(e) => Err(e),
            Ok(p) => if is_equation(t) {
                solve_result(p)
            } else {
                eval_result(p)
            },
        },
    }
}

/// The trace that `calc_result` records.
pub open spec fn calc_trace(s: Seq<char>) -> Seq<Step> {
    match tokens_of(s) {
        Err(_) => seq![],
        Ok(t) => match postfix_of(t) {
            Err(_) => seq![],
            Ok(p) => if is_equation(t) {
                solve_trace(p)
            } else {
                eval_trace(p)
            },
        },
    }
}

fn has_equation(t: &Vec<Token>) -> (r: bool)
    ensures
        r == is_equation(t@),
{
    let mut i: usize = 0;
    while i < t.len()
        invariant
            i <= t@.len(),
            forall|k: int| 0 <= k < i ==> !(t@[k] == Token::Equals || t@[k] == Token::Variable),
        decreases t@.len() - i,
    {
        if t[i] == Token::Equals || t[i] == Token::Variable {
            return true;
        }
        i = i + 1;
    }
    false
}

/// Reads an expression or an equation and computes its value: text holding
/// `=` or the unknown is solved for the unknown, other text is evaluated.
/// Each step is recorded in `log`.
pub fn calculate(input: &str, log: &mut Vec<Step>) -> (r: Result<Rational, ErrorKind>)
    ensures
        r == calc_result(input@),
        final(log)@ == old(log)@ + calc_trace(input@),
{
    let tokens = match tokenize(input) {
        Ok(t) => t,
        Err(e) => {
            assert(log@ =~= old(log)@ + seq![]);
            return Err(e);
        },
    };
    let equation = has_equation(&tokens);
    let rpn = match to_rpn(tokens) {
        Ok(p) => p,
        Err(e) => {
            assert(log@ =~= old(log)@ + seq![]);
            return Err(e);
        },
    };
    if equation {
        solve_for_x(rpn.as_slice(), log)
    } else {
        solve_rpn(rpn.as_slice(), log)
    }
}

/// Solving and both kinds of evaluation depend on their input alone: their
/// results are functions of the input (`solve_result`, `eval_result`,
/// `eval_tree`), and run twice on the same input, whatever the logs held
/// before, each run appends the same trace lines.
pub proof fn lemma_runs_repeat(t: Seq<Token>, n: crate::tree::ExprNode, log1: Seq<Step>, log2: Seq<Step>)
    ensures
        (log1 + solve_trace(t)).skip(log1.len() as int) == (log2 + solve_trace(t)).skip(log2.len() as int),
        (log1 + eval_trace(t)).skip(log1.len() as int) == (log2 + eval_trace(t)).skip(log2.len() as int),
        (log1 + eval_tree(n).1).skip(log1.len() as int) == (log2 + eval_tree(n).1).skip(log2.len() as int),
{
    assert((log1 + solve_trace(t)).skip(log1.len() as int) =~= solve_trace(t));
    assert((log2 + solve_trace(t)).skip(log2.len() as int) =~= solve_trace(t));
    assert((log1 + eval_trace(t)).skip(log1.len() as int) =~= eval_trace(t));
    assert((log2 + eval_trace(t)).skip(log2.len() as int) =~= eval_trace(t));
    assert((log1 + eval_tree(n).1).skip(log1.len() as int) =~= eval_tree(n).1);
    assert((log2 + eval_tree(n).1).skip(log2.len() as int) =~= eval_tree(n).1);
}

} // verus!
