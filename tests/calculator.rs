use calculator::calc::calculate;
use calculator::postfix::solve_rpn;
use calculator::rational::Rational;
use calculator::rpn::{precedence, to_rpn};
use calculator::solver::solve_for_x;
use calculator::token::{ErrorKind, Step, Token};
use calculator::tokenizer::tokenize;
use calculator::tree::{build_tree, evaluate};

fn whole(n: i64) -> Rational {
    Rational::from_int(n)
}

fn frac(num: i64, den: i64) -> Rational {
    Rational { num, den }
}

fn calc(s: &str) -> Result<Rational, ErrorKind> {
    let mut log = Vec::new();
    calculate(s, &mut log)
}

fn postfix(s: &str) -> Vec<Token> {
    to_rpn(tokenize(s).unwrap()).unwrap()
}

fn assert_value(r: Result<Rational, ErrorKind>, expected: Rational) {
    let v = r.unwrap();
    assert!(v.same_value(&expected), "{:?} is not {:?}", v, expected);
}

fn via_tree(s: &str) -> Result<Rational, ErrorKind> {
    let tree = build_tree(postfix(s))?;
    let mut log = Vec::new();
    evaluate(&tree, &mut log)
}

#[test]
fn round_trip_expression() {
    let rpn = postfix("3 + 5 * (2 - 8)");
    let mut log = Vec::new();
    assert_eq!(solve_rpn(&rpn, &mut log), Ok(whole(-27)));
    assert_eq!(
        log,
        vec![
            Step::Push(whole(3)),
            Step::Push(whole(5)),
            Step::Push(whole(2)),
            Step::Push(whole(8)),
            Step::Apply(whole(2), '-', whole(8), whole(-6)),
            Step::Apply(whole(5), '*', whole(-6), whole(-30)),
            Step::Apply(whole(3), '+', whole(-30), whole(-27)),
        ]
    );
}

#[test]
fn round_trip_through_tree() {
    let tree = build_tree(postfix("3 + 5 * (2 - 8)")).unwrap();
    let mut log = Vec::new();
    assert_eq!(evaluate(&tree, &mut log), Ok(whole(-27)));
    assert_eq!(
        log,
        vec![
            Step::Apply(whole(2), '-', whole(8), whole(-6)),
            Step::Apply(whole(5), '*', whole(-6), whole(-30)),
            Step::Apply(whole(3), '+', whole(-30), whole(-27)),
        ]
    );
}

#[test]
fn postfix_order() {
    assert_eq!(
        postfix("3 + 5 * (2 - 8)"),
        vec![
            Token::Number(whole(3)),
            Token::Number(whole(5)),
            Token::Number(whole(2)),
            Token::Number(whole(8)),
            Token::Operator('-'),
            Token::Operator('*'),
            Token::Operator('+'),
        ]
    );
}

#[test]
fn solves_linear_equation() {
    assert_value(calc("2 * X + 4 = 10"), whole(3));
    let rpn = postfix("2 * X + 4 = 10");
    let mut log = Vec::new();
    assert_value(solve_for_x(&rpn, &mut log), whole(3));
    assert_eq!(log.len(), 8);
    assert_eq!(log[7], Step::Solve(whole(6), whole(0), whole(2)));
}

#[test]
fn solves_with_lowercase_unknown_and_division() {
    assert_value(calc("x / 4 - 1 = 2"), whole(12));
    assert_value(calc("3 - X = 1"), whole(2));
}

#[test]
fn unknown_on_right_side_fails() {
    assert_eq!(calc("X = X"), Err(ErrorKind::VariableOnRightSide));
    assert_eq!(calc("2 = X"), Err(ErrorKind::VariableOnRightSide));
    assert_eq!(calc("X + 1 = 3 X"), Err(ErrorKind::VariableOnRightSide));
}

#[test]
fn division_by_zero_fails() {
    assert_eq!(calc("1 / 0"), Err(ErrorKind::DivisionByZero));
    assert_eq!(via_tree("1 / 0"), Err(ErrorKind::DivisionByZero));
    assert_eq!(calc("X / (2 - 2) = 1"), Err(ErrorKind::DivisionByZero));
}

#[test]
fn mismatched_parens_fail() {
    assert_eq!(
        to_rpn(tokenize("3 + 5 * ) 2 - 8 (").unwrap()),
        Err(ErrorKind::UnmatchedParen)
    );
    assert_eq!(calc("3 + 5 * ) 2 - 8 ("), Err(ErrorKind::UnmatchedParen));
    assert_eq!(calc("(1 + 2"), Err(ErrorKind::UnmatchedParen));
    assert_eq!(calc("(X = 2)"), Err(ErrorKind::UnmatchedParen));
}

#[test]
fn implicit_multiplication() {
    assert_eq!(
        tokenize("2(3)").unwrap(),
        vec![
            Token::Number(whole(2)),
            Token::Operator('*'),
            Token::LeftParen,
            Token::Number(whole(3)),
            Token::RightParen,
        ]
    );
    assert_eq!(calc("2(3)"), Ok(whole(6)));
    assert_eq!(calc("(2)(5)"), Ok(whole(10)));
    assert_eq!(calc("(2)5"), Ok(whole(10)));
}

#[test]
fn repeated_runs_agree() {
    let rpn = postfix("2 * X + 4 = 10");
    let mut log1 = Vec::new();
    let mut log2 = vec![Step::PushUnknown];
    let r1 = solve_for_x(&rpn, &mut log1);
    let r2 = solve_for_x(&rpn, &mut log2);
    assert_eq!(r1, r2);
    assert_eq!(log1[..], log2[1..]);
    let rpn = postfix("7 - 2 ^ 3 / 4");
    let mut log1 = Vec::new();
    let mut log2 = Vec::new();
    assert_eq!(solve_rpn(&rpn, &mut log1), solve_rpn(&rpn, &mut log2));
    assert_eq!(log1, log2);
}

#[test]
fn tree_and_stack_agree() {
    for s in ["3 + 5 * (2 - 8)", "2 ^ 3 ^ 2", "7 - 2 ^ 3 / 4", "1 / 0", "0.5 * 4 - 1.25", "2 ^ 0.5"] {
        let mut log = Vec::new();
        assert_eq!(via_tree(s), solve_rpn(&postfix(s), &mut log), "{}", s);
    }
}

#[test]
fn decimals_are_exact() {
    assert_value(calc("0.1 + 0.2"), frac(3, 10));
    assert_value(calc("1.5 * 2"), whole(3));
    assert_value(calc(".5 + 1."), frac(3, 2));
    assert_eq!(tokenize("12.50").unwrap(), vec![Token::Number(frac(1250, 100))]);
}

#[test]
fn powers() {
    assert_eq!(calc("2 ^ 10"), Ok(whole(1024)));
    assert_value(calc("2 ^ (0 - 2)"), frac(1, 4));
    assert_eq!(calc("2 ^ 3 ^ 2"), Ok(whole(64)));
    assert_eq!(calc("(-3) ^ 3"), Err(ErrorKind::InsufficientOperands));
    assert_value(calc("(0 - 3) ^ 3"), whole(-27));
    assert_eq!(calc("5 ^ 0"), Ok(whole(1)));
    assert_eq!(calc("2 ^ 0.5"), Err(ErrorKind::NonIntegerPower));
    assert_eq!(calc("0 ^ (0 - 1)"), Err(ErrorKind::DivisionByZero));
    assert_eq!(calc("2 ^ 63"), Err(ErrorKind::Overflow));
    assert_eq!(calc("1 ^ 1000000000000"), Ok(whole(1)));
}

#[test]
fn precedence_table() {
    assert_eq!(precedence('^'), 3);
    assert_eq!(precedence('*'), 2);
    assert_eq!(precedence('/'), 2);
    assert_eq!(precedence('+'), 1);
    assert_eq!(precedence('-'), 1);
    assert_eq!(precedence('('), 0);
}

#[test]
fn lexical_errors() {
    assert_eq!(tokenize("2 + a"), Err(ErrorKind::UnknownCharacter('a')));
    assert_eq!(tokenize("1.2.3"), Err(ErrorKind::MalformedNumber));
    assert_eq!(tokenize("."), Err(ErrorKind::MalformedNumber));
    assert_eq!(tokenize("99999999999999999999"), Err(ErrorKind::Overflow));
    assert_eq!(tokenize("0.0000000000000000001"), Err(ErrorKind::Overflow));
    assert_eq!(tokenize(" \t"), Ok(vec![]));
}

#[test]
fn structural_errors() {
    let mut log = Vec::new();
    assert_eq!(solve_rpn(&[Token::Operator('+')], &mut log), Err(ErrorKind::InsufficientOperands));
    assert_eq!(
        solve_rpn(&[Token::Number(whole(1)), Token::Number(whole(2))], &mut log),
        Err(ErrorKind::MalformedExpression)
    );
    assert_eq!(solve_rpn(&[], &mut log), Err(ErrorKind::MalformedExpression));
    assert_eq!(solve_rpn(&[Token::Variable], &mut log), Err(ErrorKind::UnknownPresent));
    assert_eq!(solve_rpn(&[Token::LeftParen], &mut log), Err(ErrorKind::UnexpectedToken));
    assert_eq!(
        solve_rpn(&[Token::Number(whole(1)), Token::Number(whole(1)), Token::Operator('%')], &mut log),
        Err(ErrorKind::UnsupportedOperator('%'))
    );
    assert_eq!(build_tree(vec![Token::Operator('+')]).err(), Some(ErrorKind::MissingOperand));
    assert_eq!(build_tree(vec![Token::Variable]).err(), Some(ErrorKind::UnknownToken));
    assert_eq!(build_tree(vec![]).err(), Some(ErrorKind::MalformedExpression));
}

#[test]
fn equals_is_skipped_by_evaluation() {
    let mut log = Vec::new();
    let rpn = [Token::Number(whole(4)), Token::Equals];
    assert_eq!(solve_rpn(&rpn, &mut log), Ok(whole(4)));
    assert_eq!(log, vec![Step::Push(whole(4)), Step::SkipEquals]);
}

#[test]
fn solver_errors() {
    assert_eq!(calc("X * X = 1"), Err(ErrorKind::NonlinearTerm));
    assert_eq!(calc("1 / X = 2"), Err(ErrorKind::DivisionByVariable));
    assert_eq!(calc("2 = 2"), Err(ErrorKind::NoVariableTerm));
    assert_eq!(calc("X ^ 2 = 4"), Err(ErrorKind::UnsupportedOperator('^')));
    assert_eq!(calc("X = 1 = 2"), Err(ErrorKind::MalformedExpression));
    assert_eq!(calc("X 1 = 2"), Err(ErrorKind::MalformedExpression));
    assert_eq!(calc("X = 1 + 2"), Err(ErrorKind::InsufficientOperands));
    let mut log = Vec::new();
    assert_eq!(solve_for_x(&[Token::LeftParen], &mut log), Err(ErrorKind::UnexpectedToken));
}

#[test]
fn rational_helpers() {
    assert!(frac(2, 4).same_value(&frac(1, 2)));
    assert!(!frac(2, 4).same_value(&frac(1, 3)));
    assert!(whole(0).is_zero());
    assert_eq!(calculator::rational::checked_div(whole(1), whole(-2)), Some(frac(-1, 2)));
    assert_eq!(calculator::rational::checked_mul(whole(i64::MAX), whole(2)), None);
}
