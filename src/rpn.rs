use vstd::prelude::*;
use crate::token::{Token, ErrorKind, tokens_wf};

verus! {

/// Binding strength of an operator: `^` 3, `* /` 2, `+ -` 1, anything else 0.
pub open spec fn prec(op: char) -> int {
    if op == '+' || op == '-' {
        1
    } else if op == '*' || op == '/' {
        2
    } else if op == '^' {
        3
    } else {
        0
    }
}

/// Moves operators from the top of `ops` to `out` while they bind at least as
/// strongly as `p`.
pub open spec fn pop_while(out: Seq<Token>, ops: Seq<Token>, p: int) -> (Seq<Token>, Seq<Token>)
    decreases ops.len(),
{
    if ops.len() > 0 && ops.last() is Operator && prec(ops.last()->Operator_0) >= p {
        pop_while(out.push(ops.last()), ops.drop_last(), p)
    } else {
        (out, ops)
    }
}

/// Moves operators to `out` down to the nearest `(`, which is discarded.
pub open spec fn pop_to_paren(out: Seq<Token>, ops: Seq<Token>) -> Result<(Seq<Token>, Seq<Token>), ErrorKind>
    decreases ops.len(),
{
    if ops.len() == 0 {
        Err(ErrorKind::UnmatchedParen)
    } else if ops.last() == Token::LeftParen {
        Ok((out, ops.drop_last()))
    } else {
        pop_to_paren(out.push(ops.last()), ops.drop_last())
    }
}

/// Moves every pending operator to `out`; a pending `(` was never closed.
pub open spec fn flush(out: Seq<Token>, ops: Seq<Token>) -> Result<Seq<Token>, ErrorKind>
    decreases ops.len(),
{
    if ops.len() == 0 {
        Ok(out)
    } else if ops.last() == Token::LeftParen {
        Err(ErrorKind::UnmatchedParen)
    } else {
        flush(out.push(ops.last()), ops.drop_last())
    }
}

/// One infix token's effect on the output and the operator stack.
pub open spec fn convert_step(out: Seq<Token>, ops: Seq<Token>, t: Token) -> Result<(Seq<Token>, Seq<Token>), ErrorKind> {
    match t {
        Token::Number(_) | Token::Variable => Ok((out.push(t), ops)),
        Token::Operator(op) => {
            let (o, s) = pop_while(out, ops, prec(op));
            Ok((o, s.push(t)))
        },
        Token::LeftParen => Ok((out, ops.push(t))),
        Token::RightParen => pop_to_paren(out, ops),
        Token::Equals => match flush(out, ops) {
            Ok(o) => Ok((o.push(Token::Equals), seq![])),
            Err(e) => Err(e),
        },
    }
}

/// Output and operator stack after the first `n` infix tokens of `t`.
pub open spec fn convert_run(t: Seq<Token>, n: nat) -> Result<(Seq<Token>, Seq<Token>), ErrorKind>
    decreases n,
{
    if n == 0 {
        Ok((seq![], seq![]))
    } else {
        match convert_run(t, (n - 1) as nat) {
            Err(e) => Err(e),
            Ok((out, ops)) => convert_step(out, ops, t[n - 1]),
        }
    }
}

/// The postfix form of the infix sequence `t`.
pub open spec fn postfix_of(t: Seq<Token>) -> Result<Seq<Token>, ErrorKind> {
    match convert_run(t, t.len()) {
        Ok((out, ops)) => flush(out, ops),
        Err(e) => Err(e),
    }
}

proof fn lemma_convert_run_stuck(t: Seq<Token>, k: nat, n: nat)
    requires
        k <= n <= t.len(),
        convert_run(t, k) is Err,
    ensures
        convert_run(t, n) == convert_run(t, k),
    decreases n - k,
{
    if n > k {
        lemma_convert_run_stuck(t, k, (n - 1) as nat);
    }
}

/// Binding strength of an operator: `^` 3, `* /` 2, `+ -` 1, anything else 0.
pub fn precedence(op: char) -> (r: i32)
    ensures
        r as int == prec(op),
{
    if op == '+' || op == '-' {
        1
    } else if op == '*' || op == '/' {
        2
    } else if op == '^' {
        3
    } else {
        0
    }
}

/// Moves every pending operator to `out`, failing on a pending `(`.
fn flush_exec(out: &mut Vec<Token>, ops: &mut Vec<Token>) -> (r: Result<(), ErrorKind>)
    requires
        tokens_wf(old(out)@),
        tokens_wf(old(ops)@),
    ensures
        flush(old(out)@, old(ops)@) == (match r {
            Ok(_) => Ok::<Seq<Token>, ErrorKind>(final(out)@),
            Err(e) => Err::<Seq<Token>, ErrorKind>(e),
        }),
        final(ops)@.len() == 0 || r is Err,
        tokens_wf(final(out)@),
        tokens_wf(final(ops)@),
{
    while ops.len() > 0
        invariant
            flush(old(out)@, old(ops)@) == flush(out@, ops@),
            tokens_wf(out@),
            tokens_wf(ops@),
        decreases ops@.len(),
    {
        let top = ops.pop().unwrap();
        if top == Token::LeftParen {
            return Err(ErrorKind::UnmatchedParen);
        }
        out.push(top);
    }
    Ok(())
}

/// Converts infix tokens to postfix order: operators of equal or higher
/// precedence leave the stack first (every operator, `^` included, groups to
/// the left), parentheses must match, and `=` flushes the pending operators
/// and stands in the output as the marker between the two sides.
pub fn to_rpn(tokens: Vec<Token>) -> (r: Result<Vec<Token>, ErrorKind>)
    requires
        tokens_wf(tokens@),
    ensures
        postfix_of(tokens@) == (match r {
            Ok(v) => Ok::<Seq<Token>, ErrorKind>(v@),
            Err(e) => Err::<Seq<Token>, ErrorKind>(e),
        }),
        r matches Ok(v) ==> tokens_wf(v@),
{
    let mut output: Vec<Token> = Vec::new();
    let mut operators: Vec<Token> = Vec::new();
    let mut i: usize = 0;
    while i < tokens.len()
        invariant
            i <= tokens@.len(),
            tokens_wf(tokens@),
            convert_run(tokens@, i as nat) == Ok::<(Seq<Token>, Seq<Token>), ErrorKind>((output@, operators@)),
            tokens_wf(output@),
            tokens_wf(operators@),
        decreases tokens@.len() - i,
    {
        let tok = tokens[i];
        assert(tok == tokens@[i as int]);
        match tok {
            Token::Number(_) | Token::Variable => {
                output.push(tok);
            },
            Token::Operator(op) => {
                let p = precedence(op);
                let ghost o0 = output@;
                let ghost s0 = operators@;
                loop
                    invariant_except_break
                        pop_to_paren(o0, s0) == pop_to_paren(output@, operators@),
                    invariant
                        i < tokens@.len(),
                        tokens_wf(tokens@),
                        tok == tokens@[i as int],
                        convert_run(tokens@, i as nat) == Ok::<(Seq<Token>, Seq<Token>), ErrorKind>((o0, s0)),
                        tok == Token::Operator(op),
                        p as int == prec(op),
                        pop_while(o0, s0, p as int) == pop_while(output@, operators@, p as int),
                        tokens_wf(output@),
                        tokens_wf(operators@),
                    ensures
                        pop_while(o0, s0, p as int) == (output@, operators@),
                        tokens_wf(output@),
                        tokens_wf(operators@),
                    decreases operators@.len(),
                {
                    if operators.len() == 0 {
                        break;
                    }
                    let top = operators[operators.len() - 1];
                    match top {
                        Token::Operator(c) => {
                            if precedence(c) >= p {
                                operators.pop();
                                output.push(top);
                            } else {
                                break;
                            }
                        },
                        _ => {
                            break;
                        },
                    }
                }
                operators.push(tok);
            },
            Token::LeftParen => {
                operators.push(tok);
            },
            Token::RightParen => {
                let ghost o0 = output@;
                let ghost s0 = operators@;
                loop
                    invariant_except_break
                        pop_to_paren(o0, s0) == pop_to_paren(output@, operators@),
                    invariant
                        i < tokens@.len(),
                        tokens_wf(tokens@),
                        tok == tokens@[i as int],
                        tok == Token::RightParen,
                        convert_run(tokens@, i as nat) == Ok::<(Seq<Token>, Seq<Token>), ErrorKind>((o0, s0)),
                        tokens_wf(output@),
                        tokens_wf(operators@),
                    ensures
                        pop_to_paren(o0, s0) == Ok::<(Seq<Token>, Seq<Token>), ErrorKind>((output@, operators@)),
                        tokens_wf(output@),
                        tokens_wf(operators@),
                    decreases operators@.len(),
                {
                    if operators.len() == 0 {
                        assert(convert_step(o0, s0, tok) == pop_to_paren(output@, operators@));
                        assert(convert_run(tokens@, (i + 1) as nat) == convert_step(o0, s0, tok));
                        proof { lemma_convert_run_stuck(tokens@, (i + 1) as nat, tokens@.len()); }
                        return Err(ErrorKind::UnmatchedParen);
                    }
                    let ghost ops_before = operators@;
                    let top = operators.pop().unwrap();
                    if top == Token::LeftParen {
                        assert(operators@ =~= ops_before.drop_last());
                        assert(ops_before.last() == Token::LeftParen);
                        break;
                    }
                    output.push(top);
                }
            },
            Token::Equals => {
                match flush_exec(&mut output, &mut operators) {
                    Ok(()) => {
                        output.push(Token::Equals);
                        assert(operators@ =~= seq![]);
                    },
                    Err(e) => {
                        proof { lemma_convert_run_stuck(tokens@, (i + 1) as nat, tokens@.len()); }
                        return Err(e);
                    },
                }
            },
        }
        i = i + 1;
    }
    assert(tokens@.subrange(0, i as int) =~= tokens@);
    match flush_exec(&mut output, &mut operators) {
        Ok(()) => Ok(output),
        Err(e) => Err(e),
    }
}

} // verus!
