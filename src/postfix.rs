use vstd::prelude::*;
use crate::rational::Rational;
use crate::arith::{apply_spec, apply};
use crate::token::{Token, ErrorKind, Step, tokens_wf};

verus! {

/// One token's effect on the evaluation stack, and the trace lines it adds.
pub open spec fn eval_step(st: Seq<Rational>, t: Token) -> Result<(Seq<Rational>, Seq<Step>), ErrorKind> {
    match t {
        Token::Number(n) => Ok((st.push(n), seq![Step::Push(n)])),
        Token::Variable => Err(ErrorKind::UnknownPresent),
        Token::Operator(op) => if st.len() < 2 {
            Err(ErrorKind::InsufficientOperands)
        } else {
            let b = st.last();
            let a = st[st.len() - 2];
            match apply_spec(a, op, b) {
                Ok(v) => Ok((st.subrange(0, st.len() - 2).push(v), seq![Step::Apply(a, op, b, v)])),
                Err(e) => Err(e),
            }
        },
        Token::Equals => Ok((st, seq![Step::SkipEquals])),
        _ => Err(ErrorKind::UnexpectedToken),
    }
}

/// The evaluation stack after the first `n` tokens of `t`, with the trace so
/// far. The first error stops the run.
pub open spec fn eval_run(t: Seq<Token>, n: nat) -> (Result<Seq<Rational>, ErrorKind>, Seq<Step>)
    decreases n,
{
    if n == 0 {
        (Ok(seq![]), seq![])
    } else {
        let (r, tr) = eval_run(t, (n - 1) as nat);
        match r {
            Err(e) => (Err(e), tr),
            Ok(st) => match eval_step(st, t[n - 1]) {
                Err(e) => (Err(e), tr),
                Ok((st2, s)) => (Ok(st2), tr + s),
            },
        }
    }
}

/// The value of the postfix sequence `t`: exactly one value must remain.
pub open spec fn eval_result(t: Seq<Token>) -> Result<Rational, ErrorKind> {
    match eval_run(t, t.len()).0 {
        Ok(st) => if st.len() == 1 {
            Ok(st[0])
        } else {
            Err(ErrorKind::MalformedExpression)
        },
        Err(e) => Err(e),
    }
}

/// The trace that evaluating `t` records.
pub open spec fn eval_trace(t: Seq<Token>) -> Seq<Step> {
    eval_run(t, t.len()).1
}

pub open spec fn values_wf(s: Seq<Rational>) -> bool {
    forall|i: int| 0 <= i < s.len() ==> (#[trigger] s[i]).wf()
}

proof fn lemma_eval_run_stuck(t: Seq<Token>, k: nat, n: nat)
    requires
        k <= n <= t.len(),
        eval_run(t, k).0 is Err,
    ensures
        eval_run(t, n) == eval_run(t, k),
    decreases n - k,
{
    if n > k {
        lemma_eval_run_stuck(t, k, (n - 1) as nat);
    }
}

proof fn lemma_eval_stop(t: Seq<Token>, i: nat, st: Seq<Rational>)
    requires
        i < t.len(),
        eval_run(t, i).0 == Ok::<Seq<Rational>, ErrorKind>(st),
        eval_step(st, t[i as int]) is Err,
    ensures
        eval_trace(t) == eval_run(t, i).1,
        eval_result(t) == Err::<Rational, ErrorKind>(eval_step(st, t[i as int])->Err_0),
{
    assert(eval_run(t, i + 1) == (Err::<Seq<Rational>, ErrorKind>(eval_step(st, t[i as int])->Err_0), eval_run(t, i).1));
    lemma_eval_run_stuck(t, i + 1, t.len());
}

/// Evaluates a postfix sequence with a stack machine, recording each push and
/// each reduction in `log`. An `=` is recorded and skipped; meeting the
/// unknown stops evaluation with `UnknownPresent`.
pub fn solve_rpn(rpn: &[Token], log: &mut Vec<Step>) -> (r: Result<Rational, ErrorKind>)
    requires
        tokens_wf(rpn@),
    ensures
        r == eval_result(rpn@),
        final(log)@ == old(log)@ + eval_trace(rpn@),
        r matches Ok(v) ==> v.wf(),
{
    let mut stack: Vec<Rational> = Vec::new();
    let ghost start = log@;
    let mut i: usize = 0;
    while i < rpn.len()
        invariant
            i <= rpn@.len(),
            tokens_wf(rpn@),
            start == old(log)@,
            eval_run(rpn@, i as nat) == (
                Ok::<Seq<Rational>, ErrorKind>(stack@),
                log@.subrange(start.len() as int, log@.len() as int),
            ),
            log@.len() >= start.len(),
            log@.subrange(0, start.len() as int) == start,
            values_wf(stack@),
        decreases rpn@.len() - i,
    {
        let ghost before = log@;
        let ghost st = stack@;
        let tok = rpn[i];
        assert(tok == rpn@[i as int]);
        match tok {
            Token::Number(n) => {
                assert(n.wf());
                stack.push(n);
                log.push(Step::Push(n));
            },
            Token::Operator(op) => {
                if stack.len() < 2 {
                    proof { lemma_eval_stop(rpn@, i as nat, st); }
                    assert(log@ =~= start + eval_trace(rpn@));
                    return Err(ErrorKind::InsufficientOperands);
                }
                let b = stack.pop().unwrap();
                let a = stack.pop().unwrap();
                assert(stack@ =~= st.subrange(0, st.len() - 2));
                match apply(a, op, b) {
                    Ok(v) => {
                        stack.push(v);
                        log.push(Step::Apply(a, op, b, v));
                    },
                    Err(e) => {
                        proof { lemma_eval_stop(rpn@, i as nat, st); }
                        assert(log@ =~= start + eval_trace(rpn@));
                        return Err(e);
                    },
                }
            },
            Token::Equals => {
                log.push(Step::SkipEquals);
            },
            Token::Variable => {
                proof { lemma_eval_stop(rpn@, i as nat, st); }
                assert(log@ =~= start + eval_trace(rpn@));
                return Err(ErrorKind::UnknownPresent);
            },
            _ => {
                proof { lemma_eval_stop(rpn@, i as nat, st); }
                assert(log@ =~= start + eval_trace(rpn@));
                return Err(ErrorKind::UnexpectedToken);
            },
        }
        assert(log@.subrange(start.len() as int, log@.len() as int) =~= before.subrange(start.len() as int, before.len() as int) + log@.subrange(before.len() as int, log@.len() as int));
        assert(log@.subrange(0, start.len() as int) =~= before.subrange(0, start.len() as int));
        i = i + 1;
    }
    assert(log@ =~= start + log@.subrange(start.len() as int, log@.len() as int));
    if stack.len() != 1 {
        return Err(ErrorKind::MalformedExpression);
    }
    Ok(stack[0])
}

} // verus!
