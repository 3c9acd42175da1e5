//! The evaluator: a left-to-right scan of the tokens over a stack of `i64`,
//! with every arithmetic step checked for overflow and domain errors.

use vstd::prelude::*;
use crate::calculator::RpnCalculator;
use crate::literal::{
    all_digits, decimal_text, fits_i64, is_digit, lemma_parse_decimal_text, parse_i64, parse_literal,
};

verus! {

/// Why an evaluation failed. Positions count tokens from 1.
#[derive(Debug, Clone, Copy, PartialEq, Eq, Structural)]
pub enum EvalError {
    Overflow,
    DivisionByZero,
    DivisionByNonPositiveModulus,
    InvalidToken(usize),
    InsufficientOperands(usize),
    MalformedResult,
}

/// The five binary operators.
#[derive(Debug, Clone, Copy, PartialEq, Eq, Structural)]
pub enum Operator {
    Add,
    Sub,
    Mul,
    Div,
    Rem,
}

/// The operator a token names: exactly one of `+ - * / %`.
pub open spec fn operator_of(s: Seq<char>) -> Option<Operator> {
    if s == seq!['+'] {
        Some(Operator::Add)
    } else if s == seq!['-'] {
        Some(Operator::Sub)
    } else if s == seq!['*'] {
        Some(Operator::Mul)
    } else if s == seq!['/'] {
        Some(Operator::Div)
    } else if s == seq!['%'] {
        Some(Operator::Rem)
    } else {
        None
    }
}

pub open spec fn magnitude(x: int) -> int {
    if x < 0 {
        -x
    } else {
        x
    }
}

/// Integer division rounded toward zero.
pub open spec fn trunc_div(x: int, y: int) -> int {
    if (x < 0) == (y < 0) {
        magnitude(x) / magnitude(y)
    } else {
        -(magnitude(x) / magnitude(y))
    }
}

/// The remainder that goes with `trunc_div`: it takes the sign of `x`.
pub open spec fn trunc_rem(x: int, y: int) -> int {
    if x < 0 {
        -(magnitude(x) % magnitude(y))
    } else {
        magnitude(x) % magnitude(y)
    }
}

pub open spec fn checked_result(v: int) -> Result<i64, EvalError> {
    if fits_i64(v) {
        Ok(v as i64)
    } else {
        Err(EvalError::Overflow)
    }
}

/// The outcome of `x op y`, where `x` was pushed before `y`.
pub open spec fn apply_spec(op: Operator, x: i64, y: i64) -> Result<i64, EvalError> {
    match op {
        Operator::Add => checked_result(x + y),
        Operator::Sub => checked_result(x - y),
        Operator::Mul => checked_result(x * y),
        Operator::Div => if y == 0 {
            Err(EvalError::DivisionByZero)
        } else {
            checked_result(trunc_div(x as int, y as int))
        },
        Operator::Rem => if y <= 0 {
            Err(EvalError::DivisionByNonPositiveModulus)
        } else {
            Ok(trunc_rem(x as int, y as int) as i64)
        },
    }
}

/// One token applied to the stack; `pos` is the token's position.
pub open spec fn step_spec(stack: Seq<i64>, token: Seq<char>, pos: usize) -> Result<Seq<i64>, EvalError> {
    match parse_literal(token) {
        Some(v) => Ok(stack.push(v)),
        None => if stack.len() < 2 {
            Err(EvalError::InsufficientOperands(pos))
        } else {
            match operator_of(token) {
                None => Err(EvalError::InvalidToken(pos)),
                Some(op) => match apply_spec(op, stack[stack.len() - 2], stack[stack.len() - 1]) {
                    Ok(z) => Ok(stack.subrange(0, stack.len() - 2).push(z)),
                    Err(e) => Err(e),
                },
            }
        },
    }
}

/// The stack after the first `n` tokens, or the first error met.
pub open spec fn run_spec(tokens: Seq<Seq<char>>, n: nat) -> Result<Seq<i64>, EvalError>
    decreases n,
{
    if n == 0 {
        Ok(Seq::empty())
    } else {
        match run_spec(tokens, (n - 1) as nat) {
            Ok(stack) => step_spec(stack, tokens[n - 1], n as usize),
            Err(e) => Err(e),
        }
    }
}

/// The value of a final stack: its single element.
pub open spec fn result_of(stack: Seq<i64>) -> Result<i64, EvalError> {
    if stack.len() == 1 {
        Ok(stack[0])
    } else {
        Err(EvalError::MalformedResult)
    }
}

/// The result of evaluating a whole token sequence.
pub open spec fn eval_spec(tokens: Seq<Seq<char>>) -> Result<i64, EvalError> {
    match run_spec(tokens, tokens.len()) {
        Ok(stack) => result_of(stack),
        Err(e) => Err(e),
    }
}

pub open spec fn token_views(tokens: Seq<&str>) -> Seq<Seq<char>> {
    tokens.map_values(|t: &str| t@)
}

/// Reads an operator token.
pub fn parse_operator(s: &str) -> (r: Option<Operator>)
    ensures
        r == operator_of(s@),
{
    if s.unicode_len() != 1 {
        return None;
    }
    let c = s.get_char(0);
    proof {
        assert(s@ =~= seq![c]);
    }
    if c == '+' {
        Some(Operator::Add)
    } else if c == '-' {
        Some(Operator::Sub)
    } else if c == '*' {
        Some(Operator::Mul)
    } else if c == '/' {
        Some(Operator::Div)
    } else if c == '%' {
        Some(Operator::Rem)
    } else {
        None
    }
}

/// Applies an operator to two operands, with overflow and domain checks.
pub fn apply(op: Operator, x: i64, y: i64) -> (r: Result<i64, EvalError>)
    ensures
        r == apply_spec(op, x, y),
{
    match op {
        Operator::Add => match x.checked_add(y) {
            Some(z) => Ok(z),
            None => Err(EvalError::Overflow),
        },
        Operator::Sub => match x.checked_sub(y) {
            Some(z) => Ok(z),
            None => Err(EvalError::Overflow),
        },
        Operator::Mul => match x.checked_mul(y) {
            Some(z) => Ok(z),
            None => Err(EvalError::Overflow),
        },
        Operator::Div => {
            if y == 0 {
                return Err(EvalError::DivisionByZero);
            }
            match x.checked_div(y) {
                Some(z) => Ok(z),
                None => Err(EvalError::Overflow),
            }
        },
        Operator::Rem => {
            if y <= 0 {
                return Err(EvalError::DivisionByNonPositiveModulus);
            }
            match x.checked_rem(y) {
                Some(z) => Ok(z),
                None => Err(EvalError::Overflow),
            }
        },
    }
}

/// Once an error is met, later tokens do not change it.
pub proof fn lemma_error_persists(tokens: Seq<Seq<char>>, i: nat, n: nat, e: EvalError)
    requires
        i <= n,
        run_spec(tokens, i) == Err::<Seq<i64>, EvalError>(e),
    ensures
        run_spec(tokens, n) == Err::<Seq<i64>, EvalError>(e),
    decreases n - i,
{
    if i < n {
        lemma_error_persists(tokens, (i + 1) as nat, n, e);
    }
}

/// A token that names an operator is never read as a literal.
proof fn lemma_operator_is_not_literal(s: Seq<char>)
    requires
        operator_of(s) is Some,
    ensures
        parse_literal(s) is None,
{
    assert(s.len() == 1);
    assert(!is_digit(s[0]));
    assert(!all_digits(s));
}

/// A single token holding the decimal text of an `i64` evaluates to that value.
pub proof fn lemma_literal_round_trip(n: i64)
    ensures
        eval_spec(seq![decimal_text(n as int)]) == Ok::<i64, EvalError>(n),
{
    let tokens = seq![decimal_text(n as int)];
    lemma_parse_decimal_text(n);
    assert(run_spec(tokens, 0) == Ok::<Seq<i64>, EvalError>(Seq::empty()));
    assert(run_spec(tokens, 1) == Ok::<Seq<i64>, EvalError>(seq![n]));
}

/// An operator met while fewer than two values are on the stack fails the
/// evaluation, reporting the operator's position.
pub proof fn lemma_operator_needs_two_operands(tokens: Seq<Seq<char>>, i: nat, stack: Seq<i64>)
    requires
        i < tokens.len(),
        run_spec(tokens, i) == Ok::<Seq<i64>, EvalError>(stack),
        stack.len() < 2,
        operator_of(tokens[i as int]) is Some,
    ensures
        eval_spec(tokens) == Err::<i64, EvalError>(EvalError::InsufficientOperands((i + 1) as usize)),
{
    lemma_operator_is_not_literal(tokens[i as int]);
    let e = EvalError::InsufficientOperands((i + 1) as usize);
    assert(run_spec(tokens, i + 1) == Err::<Seq<i64>, EvalError>(e));
    lemma_error_persists(tokens, i + 1, tokens.len(), e);
}

/// A token that is neither a literal nor an operator fails the evaluation
/// at its own position, once every token before it has been applied.
pub proof fn lemma_invalid_token_rejected(tokens: Seq<Seq<char>>, i: nat, stack: Seq<i64>)
    requires
        i < tokens.len(),
        run_spec(tokens, i) == Ok::<Seq<i64>, EvalError>(stack),
        parse_literal(tokens[i as int]) is None,
        operator_of(tokens[i as int]) is None,
    ensures
        eval_spec(tokens) == Err::<i64, EvalError>(
            if stack.len() >= 2 {
                EvalError::InvalidToken((i + 1) as usize)
            } else {
                EvalError::InsufficientOperands((i + 1) as usize)
            },
        ),
{
    let e = if stack.len() >= 2 {
        EvalError::InvalidToken((i + 1) as usize)
    } else {
        EvalError::InsufficientOperands((i + 1) as usize)
    };
    assert(run_spec(tokens, i + 1) == Err::<Seq<i64>, EvalError>(e));
    lemma_error_persists(tokens, i + 1, tokens.len(), e);
}

/// An evaluation succeeds exactly when the scan leaves one value on the stack,
/// and that value is the result; any other final stack size is rejected.
pub proof fn lemma_eval_single_value(tokens: Seq<Seq<char>>)
    ensures
        eval_spec(tokens) is Ok <==> (run_spec(tokens, tokens.len()) is Ok
            && run_spec(tokens, tokens.len())->Ok_0.len() == 1),
        run_spec(tokens, tokens.len()) is Ok && run_spec(tokens, tokens.len())->Ok_0.len() == 1
            ==> eval_spec(tokens) == Ok::<i64, EvalError>(run_spec(tokens, tokens.len())->Ok_0[0]),
        run_spec(tokens, tokens.len()) is Ok && run_spec(tokens, tokens.len())->Ok_0.len() != 1
            ==> eval_spec(tokens) == Err::<i64, EvalError>(EvalError::MalformedResult),
{
}

impl RpnCalculator {
    /// Applies one token to the operand stack; `pos` is the token's position,
    /// reported in the error when the token cannot be applied.
    pub fn eval_token(&self, stack: &mut Vec<i64>, token: &str, pos: usize) -> (r: Result<(), EvalError>)
        ensures
            match r {
                Ok(()) => step_spec(old(stack)@, token@, pos) == Ok::<Seq<i64>, EvalError>(final(stack)@),
                Err(e) => step_spec(old(stack)@, token@, pos) == Err::<Seq<i64>, EvalError>(e),
            },
    {
        if let Some(v) = parse_i64(token) {
            stack.push(v);
            return Ok(());
        }
        let len = stack.len();
        if len < 2 {
            return Err(EvalError::InsufficientOperands(pos));
        }
        let op = match parse_operator(token) {
            Some(op) => op,
            None => return Err(EvalError::InvalidToken(pos)),
        };
        let ghost before = stack@;
        let y = stack.pop().unwrap();
        let x = stack.pop().unwrap();
        proof {
            assert(stack@ =~= before.subrange(0, before.len() - 2));
        }
        match apply(op, x, y) {
            Ok(z) => {
                stack.push(z);
                Ok(())
            },
            Err(e) => Err(e),
        }
    }

    /// The value left by a complete evaluation: the stack must hold exactly one.
    pub fn final_value(&self, stack: &Vec<i64>) -> (r: Result<i64, EvalError>)
        ensures
            r == result_of(stack@),
    {
        if stack.len() != 1 {
            return Err(EvalError::MalformedResult);
        }
        Ok(stack[0])
    }

    /// Evaluates an RPN token sequence. The trace flag has no effect here:
    /// a traced run is driven token by token through `eval_token`.
    pub fn eval(&self, tokens_input: &Vec<&str>) -> (r: Result<i64, EvalError>)
        ensures
            r == eval_spec(token_views(tokens_input@)),
    {
        let ghost toks = token_views(tokens_input@);
        let n = tokens_input.len();
        let mut stack: Vec<i64> = Vec::new();
        let mut i: usize = 0;
        while i < n
            invariant
                n == tokens_input@.len(),
                toks == token_views(tokens_input@),
                i <= n,
                run_spec(toks, i as nat) == Ok::<Seq<i64>, EvalError>(stack@),
            decreases n - i,
        {
            let token = tokens_input[i];
            assert(toks[i as int] == token@);
            match self.eval_token(&mut stack, token, i + 1) {
                Ok(()) => {},
                Err(e) => {
                    proof {
                        lemma_error_persists(toks, (i + 1) as nat, n as nat, e);
                    }
                    return Err(e);
                },
            }
            i = i + 1;
        }
        self.final_value(&stack)
    }
}

} // verus!
