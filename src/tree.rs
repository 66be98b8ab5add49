use vstd::prelude::*;
use crate::rational::Rational;
use crate::arith::{apply_spec, apply};
use crate::token::{Token, ErrorKind, Step, tokens_wf};
use crate::postfix::{eval_run, eval_result};

verus! {

/// An expression tree: a leaf value, or an operator applied to two owned
/// subtrees (`left op right`).
#[derive(Debug)]
pub enum ExprNode {
    Value(Rational),
    BinaryOp(char, Box<ExprNode>, Box<ExprNode>),
}

pub open spec fn is_binary_operator(c: char) -> bool {
    c == '+' || c == '-' || c == '*' || c == '/' || c == '^'
}

/// Every leaf of the tree is well formed.
pub open spec fn node_wf(n: ExprNode) -> bool
    decreases n,
{
    match n {
        ExprNode::Value(v) => v.wf(),
        ExprNode::BinaryOp(_, l, r) => node_wf(*l) && node_wf(*r),
    }
}

/// One token's effect on the stack of subtrees.
pub open spec fn build_step(st: Seq<ExprNode>, t: Token) -> Result<Seq<ExprNode>, ErrorKind> {
    match t {
        Token::Number(n) => Ok(st.push(ExprNode::Value(n))),
        Token::Operator(op) => if !is_binary_operator(op) {
            Err(ErrorKind::UnknownToken)
        } else if st.len() < 2 {
            Err(ErrorKind::MissingOperand)
        } else {
            Ok(st.subrange(0, st.len() - 2).push(
                ExprNode::BinaryOp(op, Box::new(st[st.len() - 2]), Box::new(st.last())),
            ))
        },
        _ => Err(ErrorKind::UnknownToken),
    }
}

/// The stack of subtrees after the first `n` tokens of `t`.
pub open spec fn build_run(t: Seq<Token>, n: nat) -> Result<Seq<ExprNode>, ErrorKind>
    decreases n,
{
    if n == 0 {
        Ok(seq![])
    } else {
        match build_run(t, (n - 1) as nat) {
            Err(e) => Err(e),
            Ok(st) => build_step(st, t[n - 1]),
        }
    }
}

/// The tree of the postfix sequence `t`: exactly one subtree must remain.
pub open spec fn build_result(t: Seq<Token>) -> Result<ExprNode, ErrorKind> {
    match build_run(t, t.len()) {
        Ok(st) => if st.len() == 1 {
            Ok(st[0])
        } else {
            Err(ErrorKind::MalformedExpression)
        },
        Err(e) => Err(e),
    }
}

/// Value of a tree, children first, with one trace line per operator node.
pub open spec fn eval_tree(n: ExprNode) -> (Result<Rational, ErrorKind>, Seq<Step>)
    decreases n,
{
    match n {
        ExprNode::Value(v) => (Ok(v), seq![]),
        ExprNode::BinaryOp(op, l, r) => {
            let (rl, tl) = eval_tree(*l);
            match rl {
                Err(e) => (Err(e), tl),
                Ok(a) => {
                    let (rr, tr) = eval_tree(*r);
                    match rr {
                        Err(e) => (Err(e), tl + tr),
                        Ok(b) => match apply_spec(a, op, b) {
                            Err(e) => (Err(e), tl + tr),
                            Ok(v) => (Ok(v), tl + tr + seq![Step::Apply(a, op, b, v)]),
                        },
                    }
                },
            }
        },
    }
}

pub open spec fn nodes_wf(s: Seq<ExprNode>) -> bool {
    forall|i: int| 0 <= i < s.len() ==> node_wf(#[trigger] s[i])
}

proof fn lemma_build_run_stuck(t: Seq<Token>, k: nat, n: nat)
    requires
        k <= n <= t.len(),
        build_run(t, k) is Err,
    ensures
        build_run(t, n) == build_run(t, k),
    decreases n - k,
{
    if n > k {
        lemma_build_run_stuck(t, k, (n - 1) as nat);
    }
}

/// Builds the expression tree of a postfix sequence of numbers and operators.
pub fn build_tree(rpn: Vec<Token>) -> (r: Result<ExprNode, ErrorKind>)
    requires
        tokens_wf(rpn@),
    ensures
        r == build_result(rpn@),
        r matches Ok(n) ==> node_wf(n),
{
    let mut stack: Vec<ExprNode> = Vec::new();
    let mut i: usize = 0;
    while i < rpn.len()
        invariant
            i <= rpn@.len(),
            tokens_wf(rpn@),
            build_run(rpn@, i as nat) == Ok::<Seq<ExprNode>, ErrorKind>(stack@),
            nodes_wf(stack@),
        decreases rpn@.len() - i,
    {
        let ghost st = stack@;
        let tok = rpn[i];
        assert(tok == rpn@[i as int]);
        match tok {
            Token::Number(n) => {
                assert(n.wf());
                stack.push(ExprNode::Value(n));
            },
            Token::Operator(op) => {
                if !(op == '+' || op == '-' || op == '*' || op == '/' || op == '^') {
                    proof { lemma_build_run_stuck(rpn@, (i + 1) as nat, rpn@.len()); }
                    return Err(ErrorKind::UnknownToken);
                }
                if stack.len() < 2 {
                    proof { lemma_build_run_stuck(rpn@, (i + 1) as nat, rpn@.len()); }
                    return Err(ErrorKind::MissingOperand);
                }
                let right = stack.pop().unwrap();
                let left = stack.pop().unwrap();
                assert(stack@ =~= st.subrange(0, st.len() - 2));
                stack.push(ExprNode::BinaryOp(op, Box::new(left), Box::new(right)));
            },
            _ => {
                proof { lemma_build_run_stuck(rpn@, (i + 1) as nat, rpn@.len()); }
                return Err(ErrorKind::UnknownToken);
            },
        }
        i = i + 1;
    }
    if stack.len() != 1 {
        return Err(ErrorKind::MalformedExpression);
    }
    Ok(stack.pop().unwrap())
}

/// Evaluates a tree, children before parents, recording each operator node's
/// reduction in `log`.
pub fn evaluate(node: &ExprNode, log: &mut Vec<Step>) -> (r: Result<Rational, ErrorKind>)
    requires
        node_wf(*node),
    ensures
        r == eval_tree(*node).0,
        final(log)@ == old(log)@ + eval_tree(*node).1,
        r matches Ok(v) ==> v.wf(),
    decreases node,
{
    match node {
        ExprNode::Value(v) => {
            assert(log@ =~= old(log)@ + seq![]);
            Ok(*v)
        },
        ExprNode::BinaryOp(op, left, right) => {
            let ghost l0 = log@;
            let a = match evaluate(left, log) {
                Ok(a) => a,
                Err(e) => return Err(e),
            };
            let ghost l1 = log@;
            let b = match evaluate(right, log) {
                Ok(b) => b,
                Err(e) => {
                    assert(log@ =~= l0 + (eval_tree(**left).1 + eval_tree(**right).1));
                    return Err(e);
                },
            };
            assert(log@ =~= l0 + (eval_tree(**left).1 + eval_tree(**right).1));
            match apply(a, *op, b) {
                Ok(v) => {
                    log.push(Step::Apply(a, *op, b, v));
                    assert(log@ =~= l0 + (eval_tree(**left).1 + eval_tree(**right).1 + seq![Step::Apply(a, *op, b, v)]));
                    Ok(v)
                },
                Err(e) => Err(e),
            }
        },
    }
}

/// How the stack machine stands beside the stack of subtrees after the same
/// tokens: while it runs, its values are the subtrees' values; once it has
/// failed with `e`, the subtree at `k` is the first whose evaluation fails,
/// and it fails with `e`.
pub open spec fn stacks_agree(vr: Result<Seq<Rational>, ErrorKind>, ts: Seq<ExprNode>, k: int) -> bool {
    match vr {
        Ok(vs) => vs.len() == ts.len() && forall|i: int|
            0 <= i < ts.len() ==> eval_tree(#[trigger] ts[i]).0 == Ok::<Rational, ErrorKind>(vs[i]),
        Err(e) => 0 <= k < ts.len() && eval_tree(ts[k]).0 == Err::<Rational, ErrorKind>(e) && forall|j: int|
            0 <= j < k ==> (#[trigger] eval_tree(ts[j])).0 is Ok,
    }
}

proof fn lemma_stacks_agree(t: Seq<Token>, n: nat) -> (k: int)
    requires
        n <= t.len(),
        build_run(t, n) is Ok,
    ensures
        stacks_agree(eval_run(t, n).0, build_run(t, n)->Ok_0, k),
    decreases n,
{
    if n == 0 {
        0
    } else {
        let m = (n - 1) as nat;
        if build_run(t, m) is Err {
            lemma_build_run_stuck(t, m, n);
        }
        let k0 = lemma_stacks_agree(t, m);
        let ts = build_run(t, m)->Ok_0;
        let ts2 = build_run(t, n)->Ok_0;
        let tok = t[m as int];
        match eval_run(t, m).0 {
            Ok(vs) => {
                match tok {
                    Token::Number(v) => {
                        assert(ts2 == ts.push(ExprNode::Value(v)));
                        assert(stacks_agree(eval_run(t, n).0, ts2, k0));
                        k0
                    },
                    Token::Operator(op) => {
                        let l = ts[ts.len() - 2];
                        let r = ts.last();
                        assert(eval_tree(l).0 == Ok::<Rational, ErrorKind>(vs[vs.len() - 2]));
                        assert(eval_tree(r).0 == Ok::<Rational, ErrorKind>(vs.last()));
                        let k = ts.len() - 2;
                        assert(ts2[k] == ExprNode::BinaryOp(op, Box::new(l), Box::new(r)));
                        assert(forall|j: int| 0 <= j < k ==> ts2[j] == ts[j]);
                        k
                    },
                    _ => 0,
                }
            },
            Err(e) => {
                match tok {
                    Token::Number(v) => {
                        assert(ts2 == ts.push(ExprNode::Value(v)));
                        assert(ts2[k0] == ts[k0]);
                        assert(forall|j: int| 0 <= j < k0 ==> ts2[j] == ts[j]);
                        k0
                    },
                    Token::Operator(op) => {
                        let l = ts[ts.len() - 2];
                        let r = ts.last();
                        let k = if k0 < ts.len() - 2 { k0 } else { ts.len() - 2 };
                        assert(forall|j: int| 0 <= j < ts.len() - 2 ==> ts2[j] == ts[j]);
                        if k0 >= ts.len() - 2 {
                            assert(ts2[k] == ExprNode::BinaryOp(op, Box::new(l), Box::new(r)));
                            if k0 == ts.len() - 1 {
                                assert(eval_tree(ts[ts.len() - 2]).0 is Ok);
                            }
                        }
                        k
                    },
                    _ => 0,
                }
            },
        }
    }
}

/// Whenever a postfix sequence builds into a tree, evaluating that tree gives
/// the same outcome, value or error, as evaluating the sequence directly on a
/// stack.
pub proof fn lemma_tree_matches_postfix(t: Seq<Token>)
    requires
        build_result(t) is Ok,
    ensures
        eval_tree(build_result(t)->Ok_0).0 == eval_result(t),
{
    let k = lemma_stacks_agree(t, t.len());
    let ts = build_run(t, t.len())->Ok_0;
    assert(ts.len() == 1);
}

} // verus!
