use vstd::prelude::*;
use crate::rational::{Rational, rat_add, rat_sub, rat_mul, rat_div, checked_add, checked_sub, checked_mul, checked_div};
use crate::token::{Token, ErrorKind, Step, tokens_wf};

verus! {

/// A linear term `coefficient * X + constant`.
pub type Term = (Rational, Rational);

pub open spec fn zero() -> Rational {
    Rational { num: 0, den: 1 }
}

pub open spec fn one() -> Rational {
    Rational { num: 1, den: 1 }
}

/// What the solver holds between two tokens: the stack of left-side terms,
/// the right-hand side accumulated so far, and whether `=` has been passed.
pub struct Solving {
    pub lhs: Seq<Term>,
    pub rhs: Rational,
    pub on_rhs: bool,
}

pub open spec fn initial_solving() -> Solving {
    Solving { lhs: seq![], rhs: zero(), on_rhs: false }
}

pub open spec fn both(a: Option<Rational>, b: Option<Rational>) -> Result<Term, ErrorKind> {
    match (a, b) {
        (Some(x), Some(c)) => Ok((x, c)),
        _ => Err(ErrorKind::Overflow),
    }
}

/// Combination of the left operand `(x1, c1)` and the right operand `(x2, c2)`.
/// A product of the unknown's term with a constant keeps only the scaled
/// coefficient; the unknown may not be multiplied by itself nor divide.
pub open spec fn combine_spec(op: char, x1: Rational, c1: Rational, x2: Rational, c2: Rational) -> Result<Term, ErrorKind> {
    if op == '+' {
        both(rat_add(x1, x2), rat_add(c1, c2))
    } else if op == '-' {
        both(rat_sub(x1, x2), rat_sub(c1, c2))
    } else if op == '*' {
        if x1.num != 0 && x2.num != 0 {
            Err(ErrorKind::NonlinearTerm)
        } else if x1.num != 0 {
            both(rat_mul(x1, c2), Some(zero()))
        } else if x2.num != 0 {
            both(rat_mul(x2, c1), Some(zero()))
        } else {
            both(Some(zero()), rat_mul(c1, c2))
        }
    } else if op == '/' {
        if x2.num != 0 {
            Err(ErrorKind::DivisionByVariable)
        } else if c2.num == 0 {
            Err(ErrorKind::DivisionByZero)
        } else {
            both(rat_div(x1, c2), rat_div(c1, c2))
        }
    } else {
        Err(ErrorKind::UnsupportedOperator(op))
    }
}

/// One token's effect on the solver: the next state and the trace lines it adds.
pub open spec fn solve_step(st: Solving, t: Token) -> Result<(Solving, Seq<Step>), ErrorKind> {
    match t {
        Token::Number(n) => if st.on_rhs {
            match rat_add(st.rhs, n) {
                Some(r) => Ok((Solving { rhs: r, ..st }, seq![Step::AddToRight(n)])),
                None => Err(ErrorKind::Overflow),
            }
        } else {
            Ok((Solving { lhs: st.lhs.push((zero(), n)), ..st }, seq![Step::PushConstant(n)]))
        },
        Token::Variable => if st.on_rhs {
            Err(ErrorKind::VariableOnRightSide)
        } else {
            Ok((Solving { lhs: st.lhs.push((one(), zero())), ..st }, seq![Step::PushUnknown]))
        },
        Token::Operator(op) => if st.lhs.len() < 2 {
            Err(ErrorKind::InsufficientOperands)
        } else {
            let (x2, c2) = st.lhs.last();
            let (x1, c1) = st.lhs[st.lhs.len() - 2];
            match combine_spec(op, x1, c1, x2, c2) {
                Ok(term) => Ok((
                    Solving { lhs: st.lhs.subrange(0, st.lhs.len() - 2).push(term), ..st },
                    seq![Step::Combine(x1, c1, op, x2, c2)],
                )),
                Err(e) => Err(e),
            }
        },
        Token::Equals => if st.on_rhs || st.lhs.len() != 1 {
            Err(ErrorKind::MalformedExpression)
        } else {
            let (x, c) = st.lhs[0];
            match rat_sub(st.rhs, c) {
                Some(r) => Ok((
                    Solving { lhs: seq![(x, zero())], rhs: r, on_rhs: true },
                    seq![Step::MoveConstant(c)],
                )),
                None => Err(ErrorKind::Overflow),
            }
        },
        _ => Err(ErrorKind::UnexpectedToken),
    }
}

/// The solver's state after the first `n` tokens of `t`, with the trace so far.
/// The first error stops the run.
pub open spec fn solve_run(t: Seq<Token>, n: nat) -> (Result<Solving, ErrorKind>, Seq<Step>)
    decreases n,
{
    if n == 0 {
        (Ok(initial_solving()), seq![])
    } else {
        let (r, tr) = solve_run(t, (n - 1) as nat);
        match r {
            Err(e) => (Err(e), tr),
            Ok(st) => match solve_step(st, t[n - 1]) {
                Err(e) => (Err(e), tr),
                Ok((st2, s)) => (Ok(st2), tr + s),
            },
        }
    }
}

/// The value of the unknown once every token has been consumed.
pub open spec fn solve_finish(st: Solving) -> Result<Rational, ErrorKind> {
    if st.lhs.len() != 1 {
        Err(ErrorKind::MalformedExpression)
    } else {
        let (x, c) = st.lhs[0];
        if x.num == 0 {
            Err(ErrorKind::NoVariableTerm)
        } else {
            match rat_sub(st.rhs, c) {
                Some(d) => match rat_div(d, x) {
                    Some(v) => Ok(v),
                    None => Err(ErrorKind::Overflow),
                },
                None => Err(ErrorKind::Overflow),
            }
        }
    }
}

/// The solution of the equation in postfix form `t`.
pub open spec fn solve_result(t: Seq<Token>) -> Result<Rational, ErrorKind> {
    match solve_run(t, t.len()).0 {
        Ok(st) => solve_finish(st),
        Err(e) => Err(e),
    }
}

/// The trace that solving `t` records.
pub open spec fn solve_trace(t: Seq<Token>) -> Seq<Step> {
    let (r, tr) = solve_run(t, t.len());
    match r {
        Ok(st) => if st.lhs.len() == 1 && st.lhs[0].0.num != 0 {
            tr.push(Step::Solve(st.rhs, st.lhs[0].1, st.lhs[0].0))
        } else {
            tr
        },
        Err(_) => tr,
    }
}

pub open spec fn terms_wf(s: Seq<Term>) -> bool {
    forall|i: int| 0 <= i < s.len() ==> (#[trigger] s[i]).0.wf() && s[i].1.wf()
}

proof fn lemma_solve_run_stuck(t: Seq<Token>, k: nat, n: nat)
    requires
        k <= n <= t.len(),
        solve_run(t, k).0 is Err,
    ensures
        solve_run(t, n) == solve_run(t, k),
    decreases n - k,
{
    if n > k {
        lemma_solve_run_stuck(t, k, (n - 1) as nat);
    }
}

proof fn lemma_solve_stop(t: Seq<Token>, i: nat, st: Solving)
    requires
        i < t.len(),
        solve_run(t, i).0 == Ok::<Solving, ErrorKind>(st),
        solve_step(st, t[i as int]) is Err,
    ensures
        solve_trace(t) == solve_run(t, i).1,
        solve_result(t) == Err::<Rational, ErrorKind>(solve_step(st, t[i as int])->Err_0),
{
    assert(solve_run(t, i + 1) == (Err::<Solving, ErrorKind>(solve_step(st, t[i as int])->Err_0), solve_run(t, i).1));
    lemma_solve_run_stuck(t, i + 1, t.len());
}

proof fn lemma_on_rhs_after_equals(t: Seq<Token>, i: int, n: nat)
    requires
        0 <= i < n <= t.len(),
        t[i] == Token::Equals,
        solve_run(t, n).0 is Ok,
    ensures
        solve_run(t, n).0->Ok_0.on_rhs,
    decreases n,
{
    let m = (n - 1) as nat;
    if solve_run(t, m).0 is Err {
        lemma_solve_run_stuck(t, m, n);
    } else if m > i {
        lemma_on_rhs_after_equals(t, i, m);
    }
}

/// An unknown that comes after the `=` is never solved for: the solver fails,
/// and where everything before that unknown was accepted, it fails with
/// `VariableOnRightSide`.
pub proof fn lemma_unknown_on_right_fails(t: Seq<Token>, i: int, j: int)
    requires
        0 <= i < j < t.len(),
        t[i] == Token::Equals,
        t[j] == Token::Variable,
    ensures
        solve_result(t) is Err,
        solve_run(t, j as nat).0 is Ok ==> solve_result(t) == Err::<Rational, ErrorKind>(ErrorKind::VariableOnRightSide),
{
    if solve_run(t, j as nat).0 is Err {
        lemma_solve_run_stuck(t, j as nat, t.len());
    } else {
        lemma_on_rhs_after_equals(t, i, j as nat);
        lemma_solve_stop(t, j as nat, solve_run(t, j as nat).0->Ok_0);
    }
}

fn pair(a: Option<Rational>, b: Option<Rational>) -> (r: Result<Term, ErrorKind>)
    ensures
        r == both(a, b),
{
    match (a, b) {
        (Some(x), Some(c)) => Ok((x, c)),
        _ => Err(ErrorKind::Overflow),
    }
}

fn combine(op: char, x1: Rational, c1: Rational, x2: Rational, c2: Rational) -> (r: Result<Term, ErrorKind>)
    requires
        x1.wf(),
        c1.wf(),
        x2.wf(),
        c2.wf(),
    ensures
        r == combine_spec(op, x1, c1, x2, c2),
        r matches Ok(term) ==> term.0.wf() && term.1.wf(),
{
    let z = Rational { num: 0, den: 1 };
    if op == '+' {
        pair(checked_add(x1, x2), checked_add(c1, c2))
    } else if op == '-' {
        pair(checked_sub(x1, x2), checked_sub(c1, c2))
    } else if op == '*' {
        if x1.num != 0 && x2.num != 0 {
            Err(ErrorKind::NonlinearTerm)
        } else if x1.num != 0 {
            pair(checked_mul(x1, c2), Some(z))
        } else if x2.num != 0 {
            pair(checked_mul(x2, c1), Some(z))
        } else {
            pair(Some(z), checked_mul(c1, c2))
        }
    } else if op == '/' {
        if x2.num != 0 {
            Err(ErrorKind::DivisionByVariable)
        } else if c2.num == 0 {
            Err(ErrorKind::DivisionByZero)
        } else {
            pair(checked_div(x1, c2), checked_div(c1, c2))
        }
    } else {
        Err(ErrorKind::UnsupportedOperator(op))
    }
}

/// Solves the single-unknown linear equation given in postfix form, carrying
/// a linear term per stack slot and recording each step in `log`.
pub fn solve_for_x(rpn: &[Token], log: &mut Vec<Step>) -> (r: Result<Rational, ErrorKind>)
    requires
        tokens_wf(rpn@),
    ensures
        r == solve_result(rpn@),
        final(log)@ == old(log)@ + solve_trace(rpn@),
        r matches Ok(v) ==> v.wf(),
{
    let mut lhs: Vec<Term> = Vec::new();
    let mut rhs = Rational { num: 0, den: 1 };
    let mut on_rhs = false;
    let ghost start = log@;
    let mut i: usize = 0;
    while i < rpn.len()
        invariant
            i <= rpn@.len(),
            tokens_wf(rpn@),
            start == old(log)@,
            solve_run(rpn@, i as nat) == (
                Ok::<Solving, ErrorKind>(Solving { lhs: lhs@, rhs, on_rhs }),
                log@.subrange(start.len() as int, log@.len() as int),
            ),
            log@.len() >= start.len(),
            log@.subrange(0, start.len() as int) == start,
            terms_wf(lhs@),
            rhs.wf(),
        decreases rpn@.len() - i,
    {
        let ghost before = log@;
        let tok = rpn[i];
        let ghost st = Solving { lhs: lhs@, rhs, on_rhs };
        assert(tok == rpn@[i as int]);
        match tok {
            Token::Number(n) => {
                assert(n.wf());
                if on_rhs {
                    match checked_add(rhs, n) {
                        Some(v) => {
                            rhs = v;
                            log.push(Step::AddToRight(n));
                        },
                        None => {
                            proof { lemma_solve_stop(rpn@, i as nat, st); }
                            assert(log@ =~= start + solve_trace(rpn@));
                            return Err(ErrorKind::Overflow);
                        },
                    }
                } else {
                    lhs.push((Rational { num: 0, den: 1 }, n));
                    log.push(Step::PushConstant(n));
                }
            },
            Token::Variable => {
                if on_rhs {
                    proof { lemma_solve_stop(rpn@, i as nat, st); }
                    assert(log@ =~= start + solve_trace(rpn@));
                    return Err(ErrorKind::VariableOnRightSide);
                }
                lhs.push((Rational { num: 1, den: 1 }, Rational { num: 0, den: 1 }));
                log.push(Step::PushUnknown);
            },
            Token::Operator(op) => {
                if lhs.len() < 2 {
                    proof { lemma_solve_stop(rpn@, i as nat, st); }
                    assert(log@ =~= start + solve_trace(rpn@));
                    return Err(ErrorKind::InsufficientOperands);
                }
                let (x2, c2) = lhs.pop().unwrap();
                let (x1, c1) = lhs.pop().unwrap();
                assert(lhs@ =~= st.lhs.subrange(0, st.lhs.len() - 2));
                match combine(op, x1, c1, x2, c2) {
                    Ok(term) => {
                        lhs.push(term);
                        log.push(Step::Combine(x1, c1, op, x2, c2));
                    },
                    Err(e) => {
                        proof { lemma_solve_stop(rpn@, i as nat, st); }
                        assert(log@ =~= start + solve_trace(rpn@));
                        return Err(e);
                    },
                }
            },
            Token::Equals => {
                if on_rhs || lhs.len() != 1 {
                    proof { lemma_solve_stop(rpn@, i as nat, st); }
                    assert(log@ =~= start + solve_trace(rpn@));
                    return Err(ErrorKind::MalformedExpression);
                }
                let (x, c) = lhs[0];
                match checked_sub(rhs, c) {
                    Some(v) => {
                        rhs = v;
                        lhs = Vec::new();
                        lhs.push((x, Rational { num: 0, den: 1 }));
                        on_rhs = true;
                        log.push(Step::MoveConstant(c));
                        assert(lhs@ =~= seq![(x, zero())]);
                    },
                    None => {
                        proof { lemma_solve_stop(rpn@, i as nat, st); }
                        assert(log@ =~= start + solve_trace(rpn@));
                        return Err(ErrorKind::Overflow);
                    },
                }
            },
            _ => {
                proof { lemma_solve_stop(rpn@, i as nat, st); }
                assert(log@ =~= start + solve_trace(rpn@));
                return Err(ErrorKind::UnexpectedToken);
            },
        }
        assert(log@.subrange(start.len() as int, log@.len() as int) =~= before.subrange(start.len() as int, before.len() as int) + log@.subrange(before.len() as int, log@.len() as int));
        assert(log@.subrange(0, start.len() as int) =~= before.subrange(0, start.len() as int));
        i = i + 1;
    }
    assert(rpn@.subrange(0, i as int) =~= rpn@);
    assert(log@ =~= start + log@.subrange(start.len() as int, log@.len() as int));
    if lhs.len() != 1 {
        return Err(ErrorKind::MalformedExpression);
    }
    let (x, c) = lhs[0];
    if x.num == 0 {
        return Err(ErrorKind::NoVariableTerm);
    }
    log.push(Step::Solve(rhs, c, x));
    match checked_sub(rhs, c) {
        Some(d) => match checked_div(d, x) {
            Some(v) => Ok(v),
            None => Err(ErrorKind::Overflow),
        },
        None => Err(ErrorKind::Overflow),
    }
}

} // verus!
