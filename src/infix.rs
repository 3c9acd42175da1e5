//! The infix renderer: the same stack scan as the evaluator, over text
//! fragments, adding parentheses only where `*` or `/` would otherwise bind
//! into a `+` or `-` of an operand.

use vstd::prelude::*;
use crate::calculator::RpnCalculator;
use crate::eval::{operator_of, parse_operator, token_views, Operator};
use crate::literal::{parse_i64, parse_literal};

verus! {

/// Why a rendering failed. Positions count tokens from 0.
#[derive(Debug, Clone, Copy, PartialEq, Eq, Structural)]
pub enum RenderError {
    InvalidToken(usize),
    InsufficientOperands(usize),
    MalformedResult,
}

/// The pieces of `s` between single spaces, as `str::split(' ')` gives them:
/// always at least one, and empty ones where spaces meet or stand at an end.
pub open spec fn split_spec(s: Seq<char>) -> Seq<Seq<char>>
    decreases s.len(),
{
    if s.len() == 0 {
        seq![Seq::empty()]
    } else {
        let p = split_spec(s.drop_last());
        if s.last() == ' ' {
            p.push(Seq::empty())
        } else {
            p.update(p.len() - 1, p.last().push(s.last()))
        }
    }
}

proof fn lemma_split_nonempty(s: Seq<char>)
    ensures
        split_spec(s).len() >= 1,
    decreases s.len(),
{
    if s.len() > 0 {
        lemma_split_nonempty(s.drop_last());
    }
}

/// Splits a string at every single space.
fn split_tokens(s: &str) -> (r: Vec<&str>)
    ensures
        token_views(r@) == split_spec(s@),
{
    let n = s.unicode_len();
    let mut tokens: Vec<&str> = Vec::new();
    let mut start: usize = 0;
    let mut i: usize = 0;
    proof {
        assert(token_views(tokens@) =~= Seq::<Seq<char>>::empty());
        assert(s@.subrange(0, 0) =~= Seq::<char>::empty());
        assert(token_views(tokens@) + seq![s@.subrange(0, 0)] =~= seq![Seq::<char>::empty()]);
    }
    while i < n
        invariant
            n == s@.len(),
            start <= i <= n,
            token_views(tokens@) + seq![s@.subrange(start as int, i as int)] == split_spec(
                s@.subrange(0, i as int),
            ),
        decreases n - i,
    {
        let c = s.get_char(i);
        let ghost before = token_views(tokens@);
        let ghost cur = s@.subrange(start as int, i as int);
        proof {
            lemma_split_nonempty(s@.subrange(0, i as int));
            assert(s@.subrange(0, i + 1).drop_last() =~= s@.subrange(0, i as int));
        }
        if c == ' ' {
            let piece = s.substring_char(start, i);
            tokens.push(piece);
            start = i + 1;
            proof {
                assert(token_views(tokens@) =~= before.push(cur));
                assert(s@.subrange(start as int, i + 1) =~= Seq::<char>::empty());
                assert(token_views(tokens@) + seq![s@.subrange(start as int, i + 1)] =~= (before
                    + seq![cur]).push(Seq::empty()));
            }
        } else {
            proof {
                assert(s@.subrange(start as int, i + 1) =~= cur.push(c));
                assert(before + seq![cur.push(c)] =~= (before + seq![cur]).update(
                    before.len() as int,
                    cur.push(c),
                ));
            }
        }
        i = i + 1;
    }
    let last = s.substring_char(start, n);
    let ghost before = token_views(tokens@);
    tokens.push(last);
    proof {
        assert(token_views(tokens@) =~= before + seq![last@]);
        assert(s@.subrange(0, n as int) =~= s@);
    }
    tokens
}

pub open spec fn is_sign(c: char) -> bool {
    c == '+' || c == '-'
}

/// Neither a sign nor `stop` occurs in `s` before index `i`.
pub open spec fn clear_before(s: Seq<char>, i: int, stop: char) -> bool {
    forall|j: int| 0 <= j < i ==> !is_sign(#[trigger] s[j]) && s[j] != stop
}

/// Read from the front, `s` shows a `+` or `-` before any `stop` character.
pub open spec fn sign_before(s: Seq<char>, stop: char) -> bool {
    exists|i: int| 0 <= i < s.len() && #[trigger] is_sign(s[i]) && clear_before(s, i, stop)
}

/// The bracket that closes a scan: `(` from the front, `)` over reversed text.
pub open spec fn stop_char(rev: bool) -> char {
    if rev {
        ')'
    } else {
        '('
    }
}

/// A fragment is parenthesized under `*` or `/` when a sign shows before a
/// bracket, scanning from its front or from its back.
pub open spec fn needs_parens(x: Seq<char>) -> bool {
    sign_before(x, '(') || sign_before(x.reverse(), ')')
}

pub open spec fn wrap_spec(x: Seq<char>) -> Seq<char> {
    if needs_parens(x) {
        seq!['('] + x + seq![')']
    } else {
        x
    }
}

pub open spec fn is_mul_or_div(op: Seq<char>) -> bool {
    op == seq!['*'] || op == seq!['/']
}

/// The fragment for `x op y`.
pub open spec fn combine_spec(x: Seq<char>, op: Seq<char>, y: Seq<char>) -> Seq<char> {
    if is_mul_or_div(op) {
        wrap_spec(x) + seq![' '] + op + seq![' '] + wrap_spec(y)
    } else {
        x + seq![' '] + op + seq![' '] + y
    }
}

/// One token applied to the fragment stack; `pos` is the token's position.
/// A token that is neither a literal nor an operator is rejected.
pub open spec fn render_step_spec(stack: Seq<Seq<char>>, token: Seq<char>, pos: usize) -> Result<
    Seq<Seq<char>>,
    RenderError,
> {
    if parse_literal(token) is Some {
        Ok(stack.push(token))
    } else if stack.len() >= 2 {
        if operator_of(token) is Some {
            Ok(
                stack.subrange(0, stack.len() - 2).push(
                    combine_spec(stack[stack.len() - 2], token, stack[stack.len() - 1]),
                ),
            )
        } else {
            Err(RenderError::InvalidToken(pos))
        }
    } else {
        Err(RenderError::InsufficientOperands(pos))
    }
}

/// The fragment stack after the first `n` tokens, or the first error met.
pub open spec fn render_run(tokens: Seq<Seq<char>>, n: nat) -> Result<Seq<Seq<char>>, RenderError>
    decreases n,
{
    if n == 0 {
        Ok(Seq::empty())
    } else {
        match render_run(tokens, (n - 1) as nat) {
            Ok(stack) => render_step_spec(stack, tokens[n - 1], (n - 1) as usize),
            Err(e) => Err(e),
        }
    }
}

/// The infix text of a whole space-separated RPN expression.
pub open spec fn render_spec(s: Seq<char>) -> Result<Seq<char>, RenderError> {
    let tokens = split_spec(s);
    match render_run(tokens, tokens.len()) {
        Ok(stack) => if stack.len() == 1 {
            Ok(stack[0])
        } else {
            Err(RenderError::MalformedResult)
        },
        Err(e) => Err(e),
    }
}

pub open spec fn string_views(v: Seq<String>) -> Seq<Seq<char>> {
    v.map_values(|t: String| t@)
}

/// Once an error is met, later tokens do not change it.
pub proof fn lemma_render_error_persists(tokens: Seq<Seq<char>>, i: nat, n: nat, e: RenderError)
    requires
        i <= n,
        render_run(tokens, i) == Err::<Seq<Seq<char>>, RenderError>(e),
    ensures
        render_run(tokens, n) == Err::<Seq<Seq<char>>, RenderError>(e),
    decreases n - i,
{
    if i < n {
        lemma_render_error_persists(tokens, (i + 1) as nat, n, e);
    }
}

/// A token that is neither a literal nor an operator fails the rendering at
/// its own position, once every token before it has been applied.
pub proof fn lemma_render_invalid_token_rejected(s: Seq<char>, i: nat, stack: Seq<Seq<char>>)
    requires
        i < split_spec(s).len(),
        render_run(split_spec(s), i) == Ok::<Seq<Seq<char>>, RenderError>(stack),
        parse_literal(split_spec(s)[i as int]) is None,
        operator_of(split_spec(s)[i as int]) is None,
    ensures
        render_spec(s) == Err::<Seq<char>, RenderError>(
            if stack.len() >= 2 {
                RenderError::InvalidToken(i as usize)
            } else {
                RenderError::InsufficientOperands(i as usize)
            },
        ),
{
    let tokens = split_spec(s);
    let e = if stack.len() >= 2 {
        RenderError::InvalidToken(i as usize)
    } else {
        RenderError::InsufficientOperands(i as usize)
    };
    assert(render_run(tokens, i + 1) == Err::<Seq<Seq<char>>, RenderError>(e));
    lemma_render_error_persists(tokens, i + 1, tokens.len(), e);
}

/// A rendering succeeds exactly when the scan leaves one fragment on the
/// stack, and that fragment is the result; any other final size is rejected.
pub proof fn lemma_render_single_fragment(s: Seq<char>)
    ensures
        ({
            let tokens = split_spec(s);
            let run = render_run(tokens, tokens.len());
            &&& render_spec(s) is Ok <==> (run is Ok && run->Ok_0.len() == 1)
            &&& run is Ok && run->Ok_0.len() == 1 ==> render_spec(s) == Ok::<Seq<char>, RenderError>(
                run->Ok_0[0],
            )
            &&& run is Ok && run->Ok_0.len() != 1 ==> render_spec(s) == Err::<Seq<char>, RenderError>(
                RenderError::MalformedResult,
            )
        }),
{
}

/// The characters of `s` in reverse order.
fn reversed(s: &str) -> (r: String)
    ensures
        r@ == s@.reverse(),
{
    let n = s.unicode_len();
    let mut r = String::new();
    let mut i: usize = n;
    proof {
        assert(s@.subrange(n as int, n as int).reverse() =~= Seq::<char>::empty());
    }
    while i > 0
        invariant
            n == s@.len(),
            i <= n,
            r@ == s@.subrange(i as int, n as int).reverse(),
        decreases i,
    {
        let ghost before = r@;
        i = i - 1;
        let c = s.substring_char(i, i + 1);
        r.append(c);
        proof {
            assert(s@.subrange(i as int, n as int).reverse() =~= before + c@);
        }
    }
    proof {
        assert(s@.subrange(0, n as int) =~= s@);
    }
    r
}

impl RpnCalculator {
    /// Whether `formula`, read from its front, shows a `+` or `-` before the
    /// bracket that ends the scan: `(`, or `)` when `rev` says the text is
    /// reversed.
    fn is_need_paren(&self, formula: String, rev: bool) -> (r: bool)
        ensures
            r == sign_before(formula@, stop_char(rev)),
    {
        let s = formula.as_str();
        let n = s.unicode_len();
        let stop = if rev { ')' } else { '(' };
        let mut i: usize = 0;
        while i < n
            invariant
                n == s@.len(),
                s@ == formula@,
                stop == stop_char(rev),
                i <= n,
                clear_before(s@, i as int, stop),
            decreases n - i,
        {
            let c = s.get_char(i);
            if c == '+' || c == '-' {
                assert(is_sign(s@[i as int]));
                return true;
            } else if c == stop {
                proof {
                    assert forall|k: int| 0 <= k < s@.len() && #[trigger] is_sign(s@[k]) implies !clear_before(
                        s@,
                        k,
                        stop,
                    ) by {
                        assert(k > i);
                        assert(s@[i as int] == stop);
                    }
                }
                return false;
            }
            i = i + 1;
        }
        false
    }

    /// `x`, enclosed in parentheses when it needs them under `*` or `/`.
    fn parenthesize(&self, x: String) -> (r: String)
        ensures
            r@ == wrap_spec(x@),
    {
        let rev = reversed(x.as_str());
        if self.is_need_paren(x.clone(), false) || self.is_need_paren(rev, true) {
            let mut w = String::from_str("(");
            w.append(x.as_str());
            w.append(")");
            proof {
                reveal_strlit("(");
                reveal_strlit(")");
            }
            w
        } else {
            x
        }
    }

    /// Renders a space-separated RPN expression in infix form, with
    /// parentheses only where `*` or `/` needs them.
    pub fn rpn_to_infix(&self, rpn_formula: String) -> (r: Result<String, RenderError>)
        ensures
            match r {
                Ok(t) => render_spec(rpn_formula@) == Ok::<Seq<char>, RenderError>(t@),
                Err(e) => render_spec(rpn_formula@) == Err::<Seq<char>, RenderError>(e),
            },
    {
        let tokens = split_tokens(rpn_formula.as_str());
        let ghost toks = split_spec(rpn_formula@);
        let n = tokens.len();
        let mut infix: Vec<String> = Vec::new();
        let mut pos: usize = 0;
        assert(string_views(infix@) =~= Seq::<Seq<char>>::empty());
        while pos < n
            invariant
                n == tokens@.len(),
                n == toks.len(),
                toks == split_spec(rpn_formula@),
                toks == token_views(tokens@),
                pos <= n,
                render_run(toks, pos as nat) == Ok::<Seq<Seq<char>>, RenderError>(
                    string_views(infix@),
                ),
            decreases n - pos,
        {
            let token = tokens[pos];
            assert(toks[pos as int] == token@);
            let ghost before = string_views(infix@);
            if parse_i64(token).is_some() {
                infix.push(String::from_str(token));
                proof {
                    assert(string_views(infix@) =~= before.push(token@));
                }
            } else if infix.len() >= 2 {
                let op = match parse_operator(token) {
                    Some(op) => op,
                    None => {
                        let e = RenderError::InvalidToken(pos);
                        proof {
                            assert(render_run(toks, (pos + 1) as nat) == Err::<Seq<Seq<char>>, RenderError>(e));
                            lemma_render_error_persists(toks, (pos + 1) as nat, n as nat, e);
                        }
                        return Err(e);
                    },
                };
                let y = infix.pop().unwrap();
                let x = infix.pop().unwrap();
                let ghost rest = string_views(infix@);
                proof {
                    assert(rest =~= before.subrange(0, before.len() - 2));
                }
                let mul_div = match op {
                    Operator::Mul | Operator::Div => true,
                    _ => false,
                };
                assert(mul_div == is_mul_or_div(token@));
                let mut xy = if mul_div {
                    self.parenthesize(x)
                } else {
                    x
                };
                let yy = if mul_div {
                    self.parenthesize(y)
                } else {
                    y
                };
                xy.append(" ");
                xy.append(token);
                xy.append(" ");
                xy.append(yy.as_str());
                proof {
                    reveal_strlit(" ");
                }
                infix.push(xy);
                proof {
                    assert(xy@ == combine_spec(before[before.len() - 2], token@, before[before.len() - 1]));
                    assert(string_views(infix@) =~= rest.push(xy@));
                }
            } else {
                let e = RenderError::InsufficientOperands(pos);
                proof {
                    assert(before.len() < 2);
                    assert(render_run(toks, (pos + 1) as nat) == Err::<Seq<Seq<char>>, RenderError>(e));
                    lemma_render_error_persists(toks, (pos + 1) as nat, n as nat, e);
                }
                return Err(e);
            }
            pos = pos + 1;
        }
        if infix.len() != 1 {
            return Err(RenderError::MalformedResult);
        }
        Ok(infix[0].clone())
    }
}

} // verus!
