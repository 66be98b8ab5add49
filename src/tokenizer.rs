use vstd::prelude::*;
use crate::rational::{Rational, make};
use crate::token::{Token, ErrorKind, tokens_wf};

verus! {

pub open spec fn is_digit(c: char) -> bool {
    '0' <= c <= '9'
}

pub open spec fn is_num_char(c: char) -> bool {
    is_digit(c) || c == '.'
}

pub open spec fn is_space(c: char) -> bool {
    c == ' ' || c == '\t' || c == '\n' || c == '\r'
}

pub open spec fn is_operator_char(c: char) -> bool {
    c == '+' || c == '-' || c == '*' || c == '/' || c == '^'
}

pub open spec fn digit_of(c: char) -> int {
    (c as u32) as int - ('0' as u32) as int
}

/// The end of the run of digits and points that starts at `i`.
pub open spec fn run_end(s: Seq<char>, i: int) -> int
    decreases s.len() - i,
{
    if 0 <= i < s.len() && is_num_char(s[i]) {
        run_end(s, i + 1)
    } else {
        i
    }
}

pub open spec fn count_dots(l: Seq<char>) -> nat
    decreases l.len(),
{
    if l.len() == 0 {
        0
    } else {
        count_dots(l.drop_last()) + if l.last() == '.' { 1nat } else { 0nat }
    }
}

pub open spec fn count_digits(l: Seq<char>) -> nat
    decreases l.len(),
{
    if l.len() == 0 {
        0
    } else {
        count_digits(l.drop_last()) + if l.last() == '.' { 0nat } else { 1nat }
    }
}

/// The digits of a literal read as one integer, the point ignored.
pub open spec fn digits_value(l: Seq<char>) -> int
    decreases l.len(),
{
    if l.len() == 0 {
        0
    } else if l.last() == '.' {
        digits_value(l.drop_last())
    } else {
        digits_value(l.drop_last()) * 10 + digit_of(l.last())
    }
}

/// How many digits follow the point.
pub open spec fn frac_len(l: Seq<char>) -> nat
    decreases l.len(),
{
    if l.len() == 0 || l.last() == '.' {
        0
    } else if count_dots(l.drop_last()) > 0 {
        frac_len(l.drop_last()) + 1
    } else {
        0
    }
}

pub open spec fn pow10(k: nat) -> int
    decreases k,
{
    if k == 0 {
        1
    } else {
        10 * pow10((k - 1) as nat)
    }
}

/// The exact value of a run of digits with at most one point: `12.5` is
/// `125 / 10`.
pub open spec fn literal_value(l: Seq<char>) -> Result<Rational, ErrorKind> {
    if count_dots(l) > 1 || count_digits(l) == 0 {
        Err(ErrorKind::MalformedNumber)
    } else {
        match make(digits_value(l), pow10(frac_len(l))) {
            Some(r) => Ok(r),
            None => Err(ErrorKind::Overflow),
        }
    }
}

/// Appends a number, with a `*` first where it follows a `)`.
pub open spec fn push_number(acc: Seq<Token>, v: Rational) -> Seq<Token> {
    if acc.len() > 0 && acc.last() == Token::RightParen {
        acc.push(Token::Operator('*')).push(Token::Number(v))
    } else {
        acc.push(Token::Number(v))
    }
}

/// Appends a `(`, with a `*` first where it follows a number or a `)`.
pub open spec fn push_left_paren(acc: Seq<Token>) -> Seq<Token> {
    if acc.len() > 0 && (acc.last() is Number || acc.last() == Token::RightParen) {
        acc.push(Token::Operator('*')).push(Token::LeftParen)
    } else {
        acc.push(Token::LeftParen)
    }
}

/// The tokens of `s` from position `i` on, appended to `acc`.
pub open spec fn scan(s: Seq<char>, i: int, acc: Seq<Token>) -> Result<Seq<Token>, ErrorKind>
    decreases s.len() - i,
{
    if i < 0 || i >= s.len() {
        Ok(acc)
    } else {
        let c = s[i];
        if is_num_char(c) {
            let j = run_end(s, i);
            if j <= i || j > s.len() {
                Ok(acc)
            } else {
                match literal_value(s.subrange(i, j)) {
                    Ok(v) => scan(s, j, push_number(acc, v)),
                    Err(e) => Err(e),
                }
            }
        } else if is_operator_char(c) {
            scan(s, i + 1, acc.push(Token::Operator(c)))
        } else if c == '=' {
            scan(s, i + 1, acc.push(Token::Equals))
        } else if c == '(' {
            scan(s, i + 1, push_left_paren(acc))
        } else if c == ')' {
            scan(s, i + 1, acc.push(Token::RightParen))
        } else if c == 'X' || c == 'x' {
            scan(s, i + 1, acc.push(Token::Variable))
        } else if is_space(c) {
            scan(s, i + 1, acc)
        } else {
            Err(ErrorKind::UnknownCharacter(c))
        }
    }
}

/// The tokens of the text `s`.
pub open spec fn tokens_of(s: Seq<char>) -> Result<Seq<Token>, ErrorKind> {
    scan(s, 0, seq![])
}

/// No two neighbouring tokens multiply implicitly: neither a number nor a
/// `)` is followed by `(`, and no `)` is followed by a number.
pub open spec fn no_implicit_product(t: Seq<Token>) -> bool {
    forall|i: int| 0 <= i < t.len() - 1 ==> {
        &&& !((#[trigger] t[i] is Number || t[i] == Token::RightParen) && t[i + 1] == Token::LeftParen)
        &&& !(t[i] == Token::RightParen && t[i + 1] is Number)
    }
}

proof fn lemma_push_keeps_products_explicit(acc: Seq<Token>, next: Seq<Token>)
    requires
        no_implicit_product(acc),
        next == push_number(acc, next.last()->Number_0) || next == push_left_paren(acc)
            || (next.len() == acc.len() + 1 && next.drop_last() == acc && !(next.last() is Number)
                && next.last() != Token::LeftParen),
    ensures
        no_implicit_product(next),
{
    assert forall|k: int| 0 <= k < next.len() - 1 implies {
        &&& !((#[trigger] next[k] is Number || next[k] == Token::RightParen) && next[k + 1] == Token::LeftParen)
        &&& !(next[k] == Token::RightParen && next[k + 1] is Number)
    } by {
        if k < acc.len() - 1 {
            assert(next[k] == acc[k] && next[k + 1] == acc[k + 1]);
        }
    }
}

proof fn lemma_scan_keeps_products_explicit(s: Seq<char>, i: int, acc: Seq<Token>)
    requires
        no_implicit_product(acc),
        scan(s, i, acc) is Ok,
    ensures
        no_implicit_product(scan(s, i, acc)->Ok_0),
    decreases s.len() - i,
{
    if 0 <= i < s.len() {
        let c = s[i];
        if is_num_char(c) {
            let j = run_end(s, i);
            if i < j <= s.len() {
                let v = literal_value(s.subrange(i, j))->Ok_0;
                let a = push_number(acc, v);
                lemma_push_keeps_products_explicit(acc, a);
                lemma_scan_keeps_products_explicit(s, j, a);
            }
        } else if is_space(c) {
            lemma_scan_keeps_products_explicit(s, i + 1, acc);
        } else if is_operator_char(c) || c == '=' || c == '(' || c == ')' || c == 'X' || c == 'x' {
            let next = if is_operator_char(c) {
                acc.push(Token::Operator(c))
            } else if c == '=' {
                acc.push(Token::Equals)
            } else if c == '(' {
                push_left_paren(acc)
            } else if c == ')' {
                acc.push(Token::RightParen)
            } else {
                acc.push(Token::Variable)
            };
            if c != '(' {
                assert(next.drop_last() =~= acc);
            }
            lemma_push_keeps_products_explicit(acc, next);
            lemma_scan_keeps_products_explicit(s, i + 1, next);
        }
    }
}

/// The tokenizer leaves no implicit multiplication behind: wherever a
/// number or `)` met a `(`, or a `)` met a number, a `*` now stands between.
pub proof fn lemma_products_explicit(s: Seq<char>)
    requires
        tokens_of(s) is Ok,
    ensures
        no_implicit_product(tokens_of(s)->Ok_0),
{
    lemma_scan_keeps_products_explicit(s, 0, seq![]);
}

proof fn lemma_run_end(s: Seq<char>, i: int)
    requires
        0 <= i <= s.len(),
    ensures
        i <= run_end(s, i) <= s.len(),
        i < s.len() && is_num_char(s[i]) ==> run_end(s, i) > i,
    decreases s.len() - i,
{
    if i < s.len() && is_num_char(s[i]) {
        lemma_run_end(s, i + 1);
    }
}

proof fn lemma_literal_basics(l: Seq<char>)
    requires
        forall|i: int| 0 <= i < l.len() ==> is_num_char(#[trigger] l[i]),
    ensures
        digits_value(l) >= 0,
        count_dots(l) == 0 ==> frac_len(l) == 0,
    decreases l.len(),
{
    if l.len() > 0 {
        let d = l.drop_last();
        assert(forall|i: int| 0 <= i < d.len() ==> d[i] == l[i]);
        assert(is_num_char(l[l.len() - 1]));
        lemma_literal_basics(d);
    }
}

proof fn lemma_pow10_mono(a: nat, b: nat)
    requires
        a <= b,
    ensures
        1 <= pow10(a) <= pow10(b),
    decreases b,
{
    if b > 0 {
        if a < b {
            lemma_pow10_mono(a, (b - 1) as nat);
        } else {
            lemma_pow10_mono((a - 1) as nat, (b - 1) as nat);
        }
    }
}

/// A prefix of a literal with at most one point has no larger digit value,
/// no more digits after the point, and no more points.
proof fn lemma_prefix_mono(l: Seq<char>, k: int)
    requires
        0 <= k <= l.len(),
        count_dots(l) <= 1,
        forall|i: int| 0 <= i < l.len() ==> is_num_char(#[trigger] l[i]),
    ensures
        digits_value(l.subrange(0, k)) <= digits_value(l),
        frac_len(l.subrange(0, k)) <= frac_len(l),
        count_dots(l.subrange(0, k)) <= count_dots(l),
    decreases l.len(),
{
    if k == l.len() {
        assert(l.subrange(0, k) =~= l);
    } else {
        let d = l.drop_last();
        assert(forall|i: int| 0 <= i < d.len() ==> d[i] == l[i]);
        assert(is_num_char(l[l.len() - 1]));
        assert(l.subrange(0, k) =~= d.subrange(0, k));
        let q = d.subrange(0, k);
        assert(forall|i: int| 0 <= i < q.len() ==> q[i] == l[i]);
        lemma_prefix_mono(d, k);
        lemma_literal_basics(d);
        lemma_literal_basics(q);
    }
}

/// The value of the literal `s[start..end]`.
fn parse_literal(s: &str, start: usize, end: usize) -> (r: Result<Rational, ErrorKind>)
    requires
        start <= end <= s@.len(),
        forall|k: int| start <= k < end ==> is_num_char(#[trigger] s@[k]),
    ensures
        r == literal_value(s@.subrange(start as int, end as int)),
        r matches Ok(v) ==> v.wf(),
{
    let ghost l = s@.subrange(start as int, end as int);
    let mut dots: usize = 0;
    let mut digits: usize = 0;
    let mut k = start;
    while k < end
        invariant
            start <= k <= end <= s@.len(),
            dots == count_dots(s@.subrange(start as int, k as int)),
            digits == count_digits(s@.subrange(start as int, k as int)),
            dots + digits == k - start,
        decreases end - k,
    {
        let c = s.get_char(k);
        assert(s@.subrange(start as int, k + 1).drop_last() =~= s@.subrange(start as int, k as int));
        if c == '.' {
            dots = dots + 1;
        } else {
            digits = digits + 1;
        }
        k = k + 1;
    }
    assert(s@.subrange(start as int, end as int) =~= l);
    if dots > 1 || digits == 0 {
        return Err(ErrorKind::MalformedNumber);
    }
    let mut num: i64 = 0;
    let mut den: i64 = 1;
    let mut seen_dot = false;
    k = start;
    while k < end
        invariant
            start <= k <= end <= s@.len(),
            l == s@.subrange(start as int, end as int),
            forall|m: int| start <= m < end ==> is_num_char(#[trigger] s@[m]),
            count_dots(l) <= 1,
            count_digits(l) > 0,
            num == digits_value(s@.subrange(start as int, k as int)),
            den == pow10(frac_len(s@.subrange(start as int, k as int))),
            seen_dot == (count_dots(s@.subrange(start as int, k as int)) > 0),
        decreases end - k,
    {
        let c = s.get_char(k);
        let ghost p = s@.subrange(start as int, k + 1);
        assert(p.drop_last() =~= s@.subrange(start as int, k as int));
        assert(p =~= l.subrange(0, k + 1 - start));
        assert(forall|m: int| 0 <= m < p.len() ==> p[m] == s@[start + m]);
        assert(forall|m: int| 0 <= m < l.len() ==> l[m] == s@[start + m]);
        assert(forall|m: int| 0 <= m < p.len() - 1 ==> p.drop_last()[m] == s@[start + m]);
        proof {
            lemma_prefix_mono(l, k + 1 - start);
            lemma_literal_basics(p);
            lemma_literal_basics(p.drop_last());
            lemma_pow10_mono(0, frac_len(p.drop_last()));
        }
        if c == '.' {
            seen_dot = true;
        } else {
            assert(is_digit(c));
            let d = (c as u32 - '0' as u32) as i64;
            assert(d == digit_of(c));
            if num > (i64::MAX - d) / 10 {
                return Err(ErrorKind::Overflow);
            }
            num = num * 10 + d;
            if seen_dot {
                if den > 922_337_203_685_477_580 {
                    proof { lemma_pow10_mono(frac_len(p), frac_len(l)); }
                    return Err(ErrorKind::Overflow);
                }
                den = den * 10;
            }
        }
        k = k + 1;
    }
    assert(s@.subrange(start as int, k as int) =~= l);
    proof { lemma_pow10_mono(0, frac_len(l)); }
    Ok(Rational { num, den })
}

/// Splits text into tokens. Digits and points form one number; `X` or `x`
/// is the unknown; whitespace is skipped; any other character is refused.
/// A `*` is inserted where a number or `)` is followed by `(`, and where a
/// `)` is followed by a number.
pub fn tokenize(input: &str) -> (r: Result<Vec<Token>, ErrorKind>)
    ensures
        tokens_of(input@) == (match r {
            Ok(v) => Ok::<Seq<Token>, ErrorKind>(v@),
            Err(e) => Err::<Seq<Token>, ErrorKind>(e),
        }),
        r matches Ok(v) ==> tokens_wf(v@),
{
    let n = input.unicode_len();
    let mut tokens: Vec<Token> = Vec::new();
    let mut i: usize = 0;
    while i < n
        invariant
            i <= n == input@.len(),
            tokens_of(input@) == scan(input@, i as int, tokens@),
            tokens_wf(tokens@),
        decreases n - i,
    {
        let c = input.get_char(i);
        if c == '.' || ('0' <= c && c <= '9') {
            let mut j = i + 1;
            while j < n
                invariant
                    i < j <= n == input@.len(),
                    run_end(input@, i as int) == run_end(input@, j as int),
                    forall|k: int| i <= k < j ==> is_num_char(#[trigger] input@[k]),
                ensures
                    i < j <= n == input@.len(),
                    run_end(input@, i as int) == run_end(input@, j as int),
                    forall|k: int| i <= k < j ==> is_num_char(#[trigger] input@[k]),
                    j == n || !is_num_char(input@[j as int]),
                decreases n - j,
            {
                let d = input.get_char(j);
                if !(d == '.' || ('0' <= d && d <= '9')) {
                    break;
                }
                j = j + 1;
            }
            proof { lemma_run_end(input@, i as int); }
            assert(run_end(input@, j as int) == j);
            let v = match parse_literal(input, i, j) {
                Ok(v) => v,
                Err(e) => return Err(e),
            };
            if tokens.len() > 0 && tokens[tokens.len() - 1] == Token::RightParen {
                tokens.push(Token::Operator('*'));
            }
            tokens.push(Token::Number(v));
            i = j;
        } else {
            if c == '+' || c == '-' || c == '*' || c == '/' || c == '^' {
                tokens.push(Token::Operator(c));
            } else if c == '=' {
                tokens.push(Token::Equals);
            } else if c == '(' {
                if tokens.len() > 0 && (matches!(tokens[tokens.len() - 1], Token::Number(_))
                    || tokens[tokens.len() - 1] == Token::RightParen) {
                    tokens.push(Token::Operator('*'));
                }
                tokens.push(Token::LeftParen);
            } else if c == ')' {
                tokens.push(Token::RightParen);
            } else if c == 'X' || c == 'x' {
                tokens.push(Token::Variable);
            } else if c == ' ' || c == '\t' || c == '\n' || c == '\r' {
            } else {
                return Err(ErrorKind::UnknownCharacter(c));
            }
            i = i + 1;
        }
    }
    Ok(tokens)
}

} // verus!
