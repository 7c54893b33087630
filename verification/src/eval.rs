//! The dual-stack, operator-precedence pass over a token sequence.
//!
//! Evaluation reads the tokens once, keeping an operand stack and an operator
//! stack, and emits every operand and every operator application in the order
//! the dual-stack algorithm performs them. The emitted sequence — a postfix
//! application schedule — is the result: running it with any binary
//! interpretation of the six operators reproduces the evaluation, and a
//! successful schedule is proved to leave exactly one value.

use vstd::prelude::*;

use crate::token::{is_operator_char, token_views, EvalError, Operator, Token, TokenView};
use crate::tokenizer::{is_digit_char, lemma_tokenize_ignores_noise, spec_tokenize, tokenize};

verus! {

broadcast use vstd::std_specs::vec::axiom_spec_len;

/// Net number of values on the operand stack after running the schedule
/// `out`: each literal pushes one value, each operator consumes two values
/// and pushes one back.
pub open spec fn operand_count(out: Seq<TokenView>) -> int
    decreases out.len(),
{
    if out.len() == 0 {
        0
    } else {
        operand_count(out.drop_last()) + (if out.last() matches TokenView::Number(_) {
            1int
        } else {
            -1int
        })
    }
}

/// The step at position `k` of a schedule can be run: a literal always can;
/// an operator must be a binary one and find two operands on the stack.
pub open spec fn step_ok(out: Seq<TokenView>, k: int) -> bool {
    match out[k] {
        TokenView::Number(_) => true,
        TokenView::Operator(op) => op != Operator::LPar && op != Operator::RPar && operand_count(
            out.take(k),
        ) >= 2,
    }
}

/// Every step of the schedule can be run.
pub open spec fn schedule_steps_ok(out: Seq<TokenView>) -> bool {
    forall|k: int| 0 <= k < out.len() ==> step_ok(out, k)
}

/// A runnable schedule that leaves exactly one value: what a successful
/// evaluation returns.
pub open spec fn schedule_ok(out: Seq<TokenView>) -> bool {
    schedule_steps_ok(out) && operand_count(out) == 1
}

/// Handling a right parenthesis: stacked operators are applied until the
/// matching left parenthesis is found and discarded. Running out of stack
/// means the right parenthesis had no match.
pub open spec fn close_paren(ops: Seq<Operator>, out: Seq<TokenView>) -> Result<
    (Seq<Operator>, Seq<TokenView>),
    EvalError,
>
    decreases ops.len(),
{
    if ops.len() == 0 {
        Err(EvalError::UnmatchedParenthesis)
    } else if ops.last() == Operator::LPar {
        Ok((ops.drop_last(), out))
    } else if operand_count(out) < 2 {
        Err(EvalError::StackUnderflow)
    } else {
        close_paren(ops.drop_last(), out.push(TokenView::Operator(ops.last())))
    }
}

/// Whether a stacked operator is applied before a newly read one: it binds
/// tighter, or equally tight while the new operator groups left to right.
/// The tie-break is what makes exponentiation group right to left.
pub open spec fn pops_before(top: Operator, op: Operator) -> bool {
    top.spec_precedence() > op.spec_precedence() || (top.spec_precedence()
        == op.spec_precedence() && op.spec_is_left_associative())
}

/// Handling a binary operator: stacked non-parenthesis operators that take
/// priority are applied first, then the new operator is stacked.
pub open spec fn push_operator(op: Operator, ops: Seq<Operator>, out: Seq<TokenView>) -> Result<
    (Seq<Operator>, Seq<TokenView>),
    EvalError,
>
    decreases ops.len(),
{
    if ops.len() == 0 || ops.last() == Operator::LPar || !pops_before(ops.last(), op) {
        Ok((ops.push(op), out))
    } else if operand_count(out) < 2 {
        Err(EvalError::StackUnderflow)
    } else {
        push_operator(op, ops.drop_last(), out.push(TokenView::Operator(ops.last())))
    }
}

/// After the last token: the remaining operators are applied in stack order;
/// a left parenthesis among them was never closed. Success means exactly one
/// operand remains.
pub open spec fn drain_stack(ops: Seq<Operator>, out: Seq<TokenView>) -> Result<
    Seq<TokenView>,
    EvalError,
>
    decreases ops.len(),
{
    if ops.len() == 0 {
        if operand_count(out) == 0 {
            Err(EvalError::EmptyResult)
        } else if operand_count(out) > 1 {
            Err(EvalError::MalformedExpression)
        } else {
            Ok(out)
        }
    } else if ops.last() == Operator::LPar {
        Err(EvalError::MismatchedParenthesis)
    } else if operand_count(out) < 2 {
        Err(EvalError::StackUnderflow)
    } else {
        drain_stack(ops.drop_last(), out.push(TokenView::Operator(ops.last())))
    }
}

/// The dual-stack pass over the remaining tokens `rest`, with operator stack
/// `ops` and the schedule emitted so far `out`.
pub open spec fn spec_eval_from(
    rest: Seq<TokenView>,
    ops: Seq<Operator>,
    out: Seq<TokenView>,
) -> Result<Seq<TokenView>, EvalError>
    decreases rest.len(),
{
    if rest.len() == 0 {
        drain_stack(ops, out)
    } else {
        match rest[0] {
            TokenView::Number(lit) => spec_eval_from(
                rest.skip(1),
                ops,
                out.push(TokenView::Number(lit)),
            ),
            TokenView::Operator(op) => {
                if op == Operator::LPar {
                    spec_eval_from(rest.skip(1), ops.push(Operator::LPar), out)
                } else if op == Operator::RPar {
                    match close_paren(ops, out) {
                        Ok(so) => spec_eval_from(rest.skip(1), so.0, so.1),
                        Err(e) => Err(e),
                    }
                } else {
                    match push_operator(op, ops, out) {
                        Ok(so) => spec_eval_from(rest.skip(1), so.0, so.1),
                        Err(e) => Err(e),
                    }
                }
            },
        }
    }
}

/// What evaluating a token sequence yields: the postfix application
/// schedule, or the failure the malformed sequence runs into.
pub open spec fn spec_evaluate(tokens: Seq<TokenView>) -> Result<Seq<TokenView>, EvalError> {
    spec_eval_from(tokens, Seq::empty(), Seq::empty())
}

/// Tokenizing and evaluating in one step.
pub open spec fn spec_solve(text: Seq<char>) -> Result<Seq<TokenView>, EvalError> {
    spec_evaluate(spec_tokenize(text))
}

/// Inserting a character that produces no token — whitespace, a comma, any
/// other unrecognized character — at a token boundary (a place where the
/// scan of the two pieces is the scan of the whole) never changes what
/// solving the text yields.
pub proof fn lemma_solve_ignores_noise(s1: Seq<char>, c: char, s2: Seq<char>)
    requires
        !is_digit_char(c),
        !is_operator_char(c),
        c != '.',
        spec_tokenize(s1 + s2) == spec_tokenize(s1) + spec_tokenize(s2),
    ensures
        spec_solve(s1 + seq![c] + s2) == spec_solve(s1 + s2),
{
    lemma_tokenize_ignores_noise(s1, c, s2);
}

/// A numeric literal.
pub open spec fn is_number(t: TokenView) -> bool {
    t matches TokenView::Number(_)
}

/// A binary operator token: one of the six that apply to two operands.
pub open spec fn is_binary_operator(t: TokenView) -> bool {
    match t {
        TokenView::Operator(op) => op != Operator::LPar && op != Operator::RPar,
        TokenView::Number(_) => false,
    }
}

/// How many applications the operator stack still owes: its non-parenthesis
/// entries.
pub open spec fn pending_applications(ops: Seq<Operator>) -> nat
    decreases ops.len(),
{
    if ops.len() == 0 {
        0
    } else {
        pending_applications(ops.drop_last()) + (if ops.last() == Operator::LPar {
            0nat
        } else {
            1nat
        })
    }
}

/// A single term: one numeric literal, or a parenthesized expression.
pub open spec fn valid_term(s: Seq<TokenView>) -> bool
    decreases s.len(), 0int,
{
    ||| (s.len() == 1 && is_number(s[0]))
    ||| (s.len() >= 2 && s[0] == TokenView::Operator(Operator::LPar) && s.last()
        == TokenView::Operator(Operator::RPar) && valid_expression(
        s.subrange(1, s.len() - 1),
    ))
}

/// A valid expression: a term, then any number of binary operators each
/// followed by a term.
pub open spec fn valid_expression(s: Seq<TokenView>) -> bool
    decreases s.len(), 1int,
{
    exists|k: int|
        1 <= k <= s.len() && valid_term(#[trigger] s.take(k)) && valid_tail(s.skip(k))
}

/// What may follow the first term of a valid expression.
pub open spec fn valid_tail(s: Seq<TokenView>) -> bool
    decreases s.len(), 2int,
{
    ||| s.len() == 0
    ||| (s.len() >= 2 && is_binary_operator(s[0]) && exists|k: int|
        1 <= k <= s.len() - 1 && valid_term(#[trigger] s.skip(1).take(k)) && valid_tail(
            s.skip(1 + k),
        ))
}

proof fn lemma_drain_ok(ops: Seq<Operator>, out: Seq<TokenView>)
    requires
        all_binary(ops),
        operand_count(out) == ops.len() + 1,
    ensures
        drain_stack(ops, out) is Ok,
    decreases ops.len(),
{
    if ops.len() == 0 {
    } else {
        lemma_operand_count_push(out, TokenView::Operator(ops.last()));
        lemma_drain_ok(ops.drop_last(), out.push(TokenView::Operator(ops.last())));
    }
}

/// A stack holding only binary operators.
pub open spec fn all_binary(ops: Seq<Operator>) -> bool {
    forall|i: int| 0 <= i < ops.len() ==> ops[i] != Operator::LPar && ops[i] != Operator::RPar
}

proof fn lemma_pot_push(ops: Seq<Operator>, op: Operator)
    ensures
        pending_applications(ops.push(op)) == pending_applications(ops) + (if op
            == Operator::LPar {
            0nat
        } else {
            1nat
        }),
{
    assert(ops.push(op).drop_last() =~= ops);
    assert(ops.push(op).last() == op);
}

proof fn lemma_pot_concat_binary(a: Seq<Operator>, b: Seq<Operator>)
    requires
        all_binary(b),
    ensures
        pending_applications(a + b) == pending_applications(a) + b.len(),
    decreases b.len(),
{
    if b.len() == 0 {
        assert(a + b =~= a);
    } else {
        assert((a + b).drop_last() =~= a + b.drop_last());
        assert((a + b).last() == b.last());
        assert(b.last() != Operator::LPar);
        assert(all_binary(b.drop_last()));
        lemma_pot_concat_binary(a, b.drop_last());
    }
}

proof fn lemma_close_paren_ok(base: Seq<Operator>, added: Seq<Operator>, out: Seq<TokenView>) -> (res: Seq<
    TokenView,
>)
    requires
        all_binary(added),
        operand_count(out) == pending_applications(base) + added.len() + 1,
    ensures
        close_paren(base.push(Operator::LPar) + added, out) == Ok::<
            (Seq<Operator>, Seq<TokenView>),
            EvalError,
        >((base, res)),
        operand_count(res) == pending_applications(base) + 1,
    decreases added.len(),
{
    let ops = base.push(Operator::LPar) + added;
    if added.len() == 0 {
        assert(ops =~= base.push(Operator::LPar));
        assert(ops.last() == Operator::LPar);
        assert(ops.drop_last() =~= base);
        out
    } else {
        assert(ops.last() == added.last());
        assert(added.last() != Operator::LPar && added.last() != Operator::RPar);
        assert(operand_count(out) >= 2);
        let applied = out.push(TokenView::Operator(added.last()));
        lemma_operand_count_push(out, TokenView::Operator(added.last()));
        assert(ops.drop_last() =~= base.push(Operator::LPar) + added.drop_last());
        assert(all_binary(added.drop_last()));
        lemma_close_paren_ok(base, added.drop_last(), applied)
    }
}

proof fn lemma_push_operator_ok(
    op: Operator,
    base: Seq<Operator>,
    added: Seq<Operator>,
    out: Seq<TokenView>,
) -> (res: (Seq<Operator>, Seq<TokenView>))
    requires
        op != Operator::LPar && op != Operator::RPar,
        base.len() == 0 || base.last() == Operator::LPar,
        all_binary(added),
        operand_count(out) == pending_applications(base) + added.len() + 1,
    ensures
        push_operator(op, base + added, out) == Ok::<(Seq<Operator>, Seq<TokenView>), EvalError>(
            (base + res.0, res.1),
        ),
        all_binary(res.0),
        operand_count(res.1) == pending_applications(base) + res.0.len(),
    decreases added.len(),
{
    let ops = base + added;
    if added.len() == 0 {
        assert(ops =~= base);
        assert(ops.push(op) =~= base + seq![op]);
        assert(all_binary(seq![op]));
        (seq![op], out)
    } else {
        assert(ops.last() == added.last());
        assert(ops.last() != Operator::LPar && ops.last() != Operator::RPar);
        if !pops_before(added.last(), op) {
            assert(ops.push(op) =~= base + added.push(op));
            assert(all_binary(added.push(op)));
            (added.push(op), out)
        } else {
            assert(operand_count(out) >= 2);
            let applied = out.push(TokenView::Operator(added.last()));
            lemma_operand_count_push(out, TokenView::Operator(added.last()));
            assert(ops.drop_last() =~= base + added.drop_last());
            assert(all_binary(added.drop_last()));
            lemma_push_operator_ok(op, base, added.drop_last(), applied)
        }
    }
}

proof fn lemma_term_ok(
    s: Seq<TokenView>,
    rest: Seq<TokenView>,
    ops: Seq<Operator>,
    out: Seq<TokenView>,
) -> (res: Seq<TokenView>)
    requires
        valid_term(s),
        operand_count(out) == pending_applications(ops),
    ensures
        spec_eval_from(s + rest, ops, out) == spec_eval_from(rest, ops, res),
        operand_count(res) == pending_applications(ops) + 1,
    decreases s.len(), 0int,
{
    let t = s + rest;
    assert(t[0] == s[0]);
    if s.len() == 1 {
        let lit = s[0]->Number_0;
        assert(s[0] == TokenView::Number(lit));
        let pushed = out.push(TokenView::Number(lit));
        lemma_operand_count_push(out, TokenView::Number(lit));
        assert(t.skip(1) =~= rest);
        assert(spec_eval_from(t, ops, out) == spec_eval_from(rest, ops, pushed));
        pushed
    } else {
        let inner = s.subrange(1, s.len() - 1);
        let base2 = ops.push(Operator::LPar);
        lemma_pot_push(ops, Operator::LPar);
        let rp = seq![TokenView::Operator(Operator::RPar)] + rest;
        assert(t.skip(1) =~= inner + rp);
        assert(spec_eval_from(t, ops, out) == spec_eval_from(inner + rp, base2, out));
        let er = lemma_expr_ok(inner, rp, base2, out);
        let closed = lemma_close_paren_ok(ops, er.0, er.1);
        assert(rp[0] == TokenView::Operator(Operator::RPar));
        assert(rp.skip(1) =~= rest);
        assert(spec_eval_from(rp, base2 + er.0, er.1) == spec_eval_from(rest, ops, closed));
        closed
    }
}

proof fn lemma_expr_ok(
    s: Seq<TokenView>,
    rest: Seq<TokenView>,
    base: Seq<Operator>,
    out: Seq<TokenView>,
) -> (res: (Seq<Operator>, Seq<TokenView>))
    requires
        valid_expression(s),
        base.len() == 0 || base.last() == Operator::LPar,
        operand_count(out) == pending_applications(base),
    ensures
        spec_eval_from(s + rest, base, out) == spec_eval_from(rest, base + res.0, res.1),
        all_binary(res.0),
        operand_count(res.1) == pending_applications(base) + res.0.len() + 1,
    decreases s.len(), 1int,
{
    let k = choose|k: int|
        1 <= k <= s.len() && valid_term(#[trigger] s.take(k)) && valid_tail(s.skip(k));
    assert(s + rest =~= s.take(k) + (s.skip(k) + rest));
    let after_term = lemma_term_ok(s.take(k), s.skip(k) + rest, base, out);
    assert(base + Seq::<Operator>::empty() =~= base);
    lemma_tail_ok(s.skip(k), rest, base, Seq::<Operator>::empty(), after_term)
}

proof fn lemma_tail_ok(
    ts: Seq<TokenView>,
    rest: Seq<TokenView>,
    base: Seq<Operator>,
    added: Seq<Operator>,
    out: Seq<TokenView>,
) -> (res: (Seq<Operator>, Seq<TokenView>))
    requires
        valid_tail(ts),
        base.len() == 0 || base.last() == Operator::LPar,
        all_binary(added),
        operand_count(out) == pending_applications(base) + added.len() + 1,
    ensures
        spec_eval_from(ts + rest, base + added, out) == spec_eval_from(rest, base + res.0, res.1),
        all_binary(res.0),
        operand_count(res.1) == pending_applications(base) + res.0.len() + 1,
    decreases ts.len(), 2int,
{
    if ts.len() == 0 {
        assert(ts + rest =~= rest);
        (added, out)
    } else {
        let t = ts + rest;
        let op = ts[0]->Operator_0;
        assert(ts[0] == TokenView::Operator(op));
        let k = choose|k: int|
            1 <= k <= ts.len() - 1 && valid_term(#[trigger] ts.skip(1).take(k)) && valid_tail(
                ts.skip(1 + k),
            );
        let pr = lemma_push_operator_ok(op, base, added, out);
        assert(t[0] == ts[0]);
        assert(spec_eval_from(t, base + added, out) == spec_eval_from(
            t.skip(1),
            base + pr.0,
            pr.1,
        ));
        assert(t.skip(1) =~= ts.skip(1).take(k) + (ts.skip(1 + k) + rest));
        lemma_pot_concat_binary(base, pr.0);
        let after_term = lemma_term_ok(ts.skip(1).take(k), ts.skip(1 + k) + rest, base + pr.0, pr.1);
        lemma_tail_ok(ts.skip(1 + k), rest, base, pr.0, after_term)
    }
}

/// Any valid expression — numeric literals joined by the six binary
/// operators, with balanced parenthesized groups — evaluates successfully.
pub proof fn lemma_valid_expression_evaluates(s: Seq<TokenView>)
    requires
        valid_expression(s),
    ensures
        spec_evaluate(s) is Ok,
{
    let er = lemma_expr_ok(
        s,
        Seq::<TokenView>::empty(),
        Seq::<Operator>::empty(),
        Seq::<TokenView>::empty(),
    );
    assert(s + Seq::<TokenView>::empty() =~= s);
    assert(Seq::<Operator>::empty() + er.0 =~= er.0);
    lemma_drain_ok(er.0, er.1);
}

proof fn lemma_views_push(v: Seq<Token>, t: Token)
    ensures
        token_views(v.push(t)) == token_views(v).push(t@),
{
    assert(token_views(v.push(t)) =~= token_views(v).push(t@));
}

proof fn lemma_operand_count_push(out: Seq<TokenView>, t: TokenView)
    ensures
        operand_count(out.push(t)) == operand_count(out) + (if t matches TokenView::Number(_) {
            1int
        } else {
            -1int
        }),
{
    assert(out.push(t).drop_last() =~= out);
    assert(out.push(t).last() == t);
}

proof fn lemma_steps_ok_push(out: Seq<TokenView>, t: TokenView)
    requires
        schedule_steps_ok(out),
        (t matches TokenView::Operator(op) ==> op != Operator::LPar && op != Operator::RPar
            && operand_count(out) >= 2),
    ensures
        schedule_steps_ok(out.push(t)),
{
    let out2 = out.push(t);
    assert forall|k: int| 0 <= k < out2.len() implies step_ok(out2, k) by {
        if k < out.len() {
            assert(step_ok(out, k));
            assert(out2.take(k) =~= out.take(k));
            assert(out2[k] == out[k]);
        } else {
            assert(out2[k] == t);
            assert(out2.take(k) =~= out);
        }
    }
}

/// The operator on top of the stack, if any.
pub fn first_operator_in_stack(stack: &[Operator]) -> (r: Option<Operator>)
    ensures
        r == (if stack@.len() == 0 {
            None::<Operator>
        } else {
            Some(stack@.last())
        }),
{
    if stack.len() == 0 {
        return None;
    }
    Some(stack[stack.len() - 1])
}

/// The operator on top of the stack, unless the stack is empty or its top is
/// a left parenthesis, which shields everything below it.
pub fn first_non_para_in_stack(stack: &[Operator]) -> (r: Option<Operator>)
    ensures
        r == (if stack@.len() == 0 || stack@.last() == Operator::LPar {
            None::<Operator>
        } else {
            Some(stack@.last())
        }),
{
    match first_operator_in_stack(stack) {
        Some(op) => if op != Operator::LPar {
            Some(op)
        } else {
            None
        },
        None => None,
    }
}

/// Runs the dual-stack pass over `tokens` and returns the postfix
/// application schedule, or the failure the sequence runs into — exactly as
/// [`spec_evaluate`] describes. A returned schedule is runnable and leaves
/// exactly one value.
pub fn evaluate(tokens: Vec<Token>) -> (r: Result<Vec<Token>, EvalError>)
    ensures
        (match r {
            Ok(plan) => spec_evaluate(token_views(tokens@)) == Ok::<Seq<TokenView>, EvalError>(
                token_views(plan@),
            ) && schedule_ok(token_views(plan@)),
            Err(e) => spec_evaluate(token_views(tokens@)) == Err::<Seq<TokenView>, EvalError>(e),
        }),
{
    let ghost all = token_views(tokens@);
    let mut rest = tokens;
    let mut out: Vec<Token> = Vec::new();
    let mut ops: Vec<Operator> = Vec::new();
    let mut count: usize = 0;
    proof {
        assert(token_views(out@) =~= Seq::<TokenView>::empty());
        assert(ops@ =~= Seq::<Operator>::empty());
    }
    while rest.len() > 0
        invariant
            all == token_views(tokens@),
            spec_eval_from(token_views(rest@), ops@, token_views(out@)) == spec_evaluate(all),
            count == operand_count(token_views(out@)),
            count <= out.len(),
            schedule_steps_ok(token_views(out@)),
            forall|k: int| 0 <= k < ops@.len() ==> ops@[k] != Operator::RPar,
        decreases rest@.len(),
    {
        let ghost rest0 = token_views(rest@);
        let t = rest.remove(0);
        proof {
            assert(t@ == rest0[0]);
            assert(token_views(rest@) =~= rest0.skip(1));
        }
        match t {
            Token::Number(lit) => {
                let tok = Token::Number(lit);
                proof {
                    lemma_views_push(out@, tok);
                    lemma_operand_count_push(token_views(out@), tok@);
                    lemma_steps_ok_push(token_views(out@), tok@);
                }
                out.push(tok);
                proof {
                    assert(count < out.len());
                }
                count = count + 1;
            },
            Token::Operator(Operator::LPar) => {
                ops.push(Operator::LPar);
            },
            Token::Operator(Operator::RPar) => {
                loop
                    invariant_except_break
                        (match close_paren(ops@, token_views(out@)) {
                            Ok(so) => spec_eval_from(token_views(rest@), so.0, so.1),
                            Err(e) => Err(e),
                        }) == spec_evaluate(all),
                    invariant
                        all == token_views(tokens@),
                        count == operand_count(token_views(out@)),
                        count <= out.len(),
                        schedule_steps_ok(token_views(out@)),
                        forall|k: int| 0 <= k < ops@.len() ==> ops@[k] != Operator::RPar,
                    ensures
                        spec_eval_from(token_views(rest@), ops@, token_views(out@))
                            == spec_evaluate(all),
                        count == operand_count(token_views(out@)),
                        count <= out.len(),
                        schedule_steps_ok(token_views(out@)),
                        forall|k: int| 0 <= k < ops@.len() ==> ops@[k] != Operator::RPar,
                    decreases ops@.len(),
                {
                    match first_operator_in_stack(ops.as_slice()) {
                        None => {
                            return Err(EvalError::UnmatchedParenthesis);
                        },
                        Some(Operator::LPar) => {
                            let ghost ops0 = ops@;
                            let _ = ops.pop();
                            proof {
                                assert(ops@ =~= ops0.drop_last());
                            }
                            break ;
                        },
                        Some(top) => {
                            let ghost ops0 = ops@;
                            let _ = ops.pop();
                            proof {
                                assert(ops@ =~= ops0.drop_last());
                            }
                            if count < 2 {
                                return Err(EvalError::StackUnderflow);
                            }
                            count = count - 1;
                            let tok = Token::Operator(top);
                            proof {
                                lemma_views_push(out@, tok);
                                lemma_operand_count_push(token_views(out@), tok@);
                                lemma_steps_ok_push(token_views(out@), tok@);
                            }
                            out.push(tok);
                        },
                    }
                }
            },
            Token::Operator(op) => {
                loop
                    invariant_except_break
                        (match push_operator(op, ops@, token_views(out@)) {
                            Ok(so) => spec_eval_from(token_views(rest@), so.0, so.1),
                            Err(e) => Err(e),
                        }) == spec_evaluate(all),
                    invariant
                        all == token_views(tokens@),
                        op != Operator::LPar && op != Operator::RPar,
                        count == operand_count(token_views(out@)),
                        count <= out.len(),
                        schedule_steps_ok(token_views(out@)),
                        forall|k: int| 0 <= k < ops@.len() ==> ops@[k] != Operator::RPar,
                    ensures
                        op != Operator::LPar && op != Operator::RPar,
                        spec_eval_from(token_views(rest@), ops@.push(op), token_views(out@))
                            == spec_evaluate(all),
                        count == operand_count(token_views(out@)),
                        count <= out.len(),
                        schedule_steps_ok(token_views(out@)),
                        forall|k: int| 0 <= k < ops@.len() ==> ops@[k] != Operator::RPar,
                    decreases ops@.len(),
                {
                    match first_non_para_in_stack(ops.as_slice()) {
                        None => {
                            break ;
                        },
                        Some(top) => {
                            if top.precedence() > op.precedence() || (top.precedence()
                                == op.precedence() && op.is_left_associative()) {
                                let ghost ops0 = ops@;
                                let _ = ops.pop();
                                proof {
                                    assert(ops@ =~= ops0.drop_last());
                                }
                                if count < 2 {
                                    return Err(EvalError::StackUnderflow);
                                }
                                count = count - 1;
                                let tok = Token::Operator(top);
                                proof {
                                    lemma_views_push(out@, tok);
                                    lemma_operand_count_push(token_views(out@), tok@);
                                    lemma_steps_ok_push(token_views(out@), tok@);
                                }
                                out.push(tok);
                            } else {
                                break ;
                            }
                        },
                    }
                }
                let ghost ops1 = ops@;
                ops.push(op);
                proof {
                    assert(ops@ =~= ops1.push(op));
                }
            },
        }
    }
    proof {
        assert(token_views(rest@).len() == 0);
        assert(spec_eval_from(token_views(rest@), ops@, token_views(out@)) == drain_stack(
            ops@,
            token_views(out@),
        ));
    }
    loop
        invariant_except_break
            drain_stack(ops@, token_views(out@)) == spec_evaluate(all),
        invariant
            all == token_views(tokens@),
            count == operand_count(token_views(out@)),
            count <= out.len(),
            schedule_steps_ok(token_views(out@)),
            forall|k: int| 0 <= k < ops@.len() ==> ops@[k] != Operator::RPar,
        ensures
            ops@.len() == 0,
            drain_stack(ops@, token_views(out@)) == spec_evaluate(all),
            count == operand_count(token_views(out@)),
            schedule_steps_ok(token_views(out@)),
        decreases ops@.len(),
    {
        match first_operator_in_stack(ops.as_slice()) {
            None => {
                break ;
            },
            Some(Operator::LPar) => {
                return Err(EvalError::MismatchedParenthesis);
            },
            Some(top) => {
                let ghost ops0 = ops@;
                let _ = ops.pop();
                proof {
                    assert(ops@ =~= ops0.drop_last());
                }
                if count < 2 {
                    return Err(EvalError::StackUnderflow);
                }
                count = count - 1;
                let tok = Token::Operator(top);
                proof {
                    lemma_views_push(out@, tok);
                    lemma_operand_count_push(token_views(out@), tok@);
                    lemma_steps_ok_push(token_views(out@), tok@);
                }
                out.push(tok);
            },
        }
    }
    if count == 0 {
        return Err(EvalError::EmptyResult);
    }
    if count > 1 {
        return Err(EvalError::MalformedExpression);
    }
    Ok(out)
}

/// Tokenizes `text` and evaluates the tokens: the composed entry point.
pub fn solve(text: &str) -> (r: Result<Vec<Token>, EvalError>)
    ensures
        (match r {
            Ok(plan) => spec_solve(text@) == Ok::<Seq<TokenView>, EvalError>(token_views(plan@))
                && schedule_ok(token_views(plan@)),
            Err(e) => spec_solve(text@) == Err::<Seq<TokenView>, EvalError>(e),
        }),
{
    evaluate(tokenize(text))
}

} // verus!
