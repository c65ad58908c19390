use vstd::prelude::*;
use crate::token::{operator_rank, seq_result, Bracket, CalcError, Token};

verus! {

/// Conversion state: the output queue and the working stack of operators and open brackets.
pub type ConvState = (Seq<Token>, Seq<Token>);

/// Moves operators from the top of the stack to the output while their rank is at least `min`;
/// an open bracket halts it.
pub open spec fn pop_ranked(st: ConvState, min: nat) -> ConvState
    decreases st.1.len(),
{
    if st.1.len() > 0 && st.1.last() is Op && operator_rank(st.1.last()->Op_0) >= min {
        pop_ranked((st.0.push(st.1.last()), st.1.drop_last()), min)
    } else {
        st
    }
}

/// One infix token applied to the conversion state.
pub open spec fn convert_step(st: ConvState, t: Token) -> Result<ConvState, CalcError> {
    match t {
        Token::Number(_) => Ok((st.0.push(t), st.1)),
        Token::Op(op) => {
            let p = pop_ranked(st, operator_rank(op));
            Ok((p.0, p.1.push(t)))
        },
        Token::Br(Bracket::OpeningParenthesis) => Ok((st.0, st.1.push(t))),
        Token::Br(Bracket::ClosingParenthesis) => {
            let p = pop_ranked(st, 0);
            if p.1.len() > 0 && p.1.last() == Token::Br(Bracket::OpeningParenthesis) {
                Ok((p.0, p.1.drop_last()))
            } else {
                Err(CalcError::MismatchedBracket)
            }
        },
    }
}

/// The state after converting all of `ts`.
pub open spec fn convert(ts: Seq<Token>) -> Result<ConvState, CalcError>
    decreases ts.len(),
{
    if ts.len() == 0 {
        Ok((Seq::empty(), Seq::empty()))
    } else {
        match convert(ts.drop_last()) {
            Ok(st) => convert_step(st, ts.last()),
            Err(e) => Err(e),
        }
    }
}

/// Empties the stack onto the output, top first; an open bracket still on it was never closed.
pub open spec fn drain(out: Seq<Token>, stack: Seq<Token>) -> Result<Seq<Token>, CalcError>
    decreases stack.len(),
{
    if stack.len() == 0 {
        Ok(out)
    } else if stack.last() == Token::Br(Bracket::OpeningParenthesis) {
        Err(CalcError::MismatchedBracket)
    } else {
        drain(out.push(stack.last()), stack.drop_last())
    }
}

/// The postfix form of an infix token sequence.
pub open spec fn spec_postfix(ts: Seq<Token>) -> Result<Seq<Token>, CalcError> {
    match convert(ts) {
        Ok(st) => drain(st.0, st.1),
        Err(e) => Err(e),
    }
}

/// The number tokens of a sequence, in order.
pub open spec fn numbers(ts: Seq<Token>) -> Seq<Token> {
    ts.filter(|t: Token| t is Number)
}

pub open spec fn bracket_free(ts: Seq<Token>) -> bool {
    forall|i: int| 0 <= i < ts.len() ==> !(#[trigger] ts[i] is Br)
}

/// The working stack holds only operators and open brackets.
pub open spec fn stack_shape(stack: Seq<Token>) -> bool {
    forall|i: int|
        0 <= i < stack.len() ==> #[trigger] stack[i] is Op || stack[i] == Token::Br(
            Bracket::OpeningParenthesis,
        )
}

proof fn lemma_numbers_push(ts: Seq<Token>, t: Token)
    ensures
        numbers(ts.push(t)) == if t is Number {
            numbers(ts).push(t)
        } else {
            numbers(ts)
        },
{
    reveal(Seq::filter);
    assert(ts.push(t).drop_last() =~= ts);
}

proof fn lemma_pop_ranked_shape(st: ConvState, min: nat)
    requires
        bracket_free(st.0),
        stack_shape(st.1),
    ensures
        numbers(pop_ranked(st, min).0) == numbers(st.0),
        bracket_free(pop_ranked(st, min).0),
        stack_shape(pop_ranked(st, min).1),
    decreases st.1.len(),
{
    if st.1.len() > 0 && st.1.last() is Op && operator_rank(st.1.last()->Op_0) >= min {
        let next = (st.0.push(st.1.last()), st.1.drop_last());
        lemma_numbers_push(st.0, st.1.last());
        assert(stack_shape(next.1));
        lemma_pop_ranked_shape(next, min);
    }
}

proof fn lemma_convert_shape(ts: Seq<Token>)
    requires
        convert(ts) is Ok,
    ensures
        numbers(convert(ts)->Ok_0.0) == numbers(ts),
        bracket_free(convert(ts)->Ok_0.0),
        stack_shape(convert(ts)->Ok_0.1),
    decreases ts.len(),
{
    if ts.len() == 0 {
        reveal(Seq::filter);
    } else {
        let prev = ts.drop_last();
        let t = ts.last();
        lemma_convert_shape(prev);
        let st = convert(prev)->Ok_0;
        lemma_numbers_push(prev, t);
        assert(prev.push(t) =~= ts);
        lemma_numbers_push(st.0, t);
        lemma_pop_ranked_shape(st, 0);
        match t {
            Token::Op(op) => {
                lemma_pop_ranked_shape(st, operator_rank(op));
                let p = pop_ranked(st, operator_rank(op));
                assert(stack_shape(p.1.push(t)));
            },
            Token::Br(Bracket::OpeningParenthesis) => {
                assert(stack_shape(st.1.push(t)));
            },
            Token::Br(Bracket::ClosingParenthesis) => {
                let p = pop_ranked(st, 0);
                assert(stack_shape(p.1.drop_last()));
            },
            Token::Number(_) => {},
        }
    }
}

proof fn lemma_drain_shape(out: Seq<Token>, stack: Seq<Token>)
    requires
        bracket_free(out),
        stack_shape(stack),
        drain(out, stack) is Ok,
    ensures
        numbers(drain(out, stack)->Ok_0) == numbers(out),
        bracket_free(drain(out, stack)->Ok_0),
    decreases stack.len(),
{
    if stack.len() > 0 {
        lemma_numbers_push(out, stack.last());
        assert(stack_shape(stack.drop_last()));
        lemma_drain_shape(out.push(stack.last()), stack.drop_last());
    }
}

/// The postfix form keeps every number, in order, and holds no bracket.
pub proof fn lemma_postfix_shape(ts: Seq<Token>)
    requires
        spec_postfix(ts) is Ok,
    ensures
        numbers(spec_postfix(ts)->Ok_0) == numbers(ts),
        bracket_free(spec_postfix(ts)->Ok_0),
{
    lemma_convert_shape(ts);
    let st = convert(ts)->Ok_0;
    lemma_drain_shape(st.0, st.1);
}

proof fn lemma_convert_err_prefix(ts: Seq<Token>, k: int, e: CalcError)
    requires
        0 <= k <= ts.len(),
        convert(ts.take(k)) == Err::<ConvState, CalcError>(e),
    ensures
        convert(ts) == Err::<ConvState, CalcError>(e),
    decreases ts.len() - k,
{
    if k == ts.len() {
        assert(ts.take(k) =~= ts);
    } else {
        assert(ts.take(k + 1).drop_last() =~= ts.take(k));
        lemma_convert_err_prefix(ts, k + 1, e);
    }
}

fn pop_while_ranked(out: &mut Vec<Token>, stack: &mut Vec<Token>, min: u8)
    ensures
        pop_ranked((old(out)@, old(stack)@), min as nat) == (final(out)@, final(stack)@),
{
    loop
        invariant
            pop_ranked((out@, stack@), min as nat) == pop_ranked(
                (old(out)@, old(stack)@),
                min as nat,
            ),
        ensures
            pop_ranked((old(out)@, old(stack)@), min as nat) == (out@, stack@),
        decreases stack@.len(),
    {
        let n = stack.len();
        if n == 0 {
            break;
        }
        let pops = match stack[n - 1] {
            Token::Op(op) => op.operator_precedence() >= min,
            _ => false,
        };
        if !pops {
            break;
        }
        let top = stack.pop().unwrap();
        out.push(top);
    }
}

/// Reorders an infix token sequence into postfix form by the shunting-yard method.
pub fn postfix(tokens: &Vec<Token>) -> (r: Result<Vec<Token>, CalcError>)
    ensures
        seq_result(r) == spec_postfix(tokens@),
        r matches Ok(q) ==> numbers(q@) == numbers(tokens@) && bracket_free(q@),
{
    let mut out: Vec<Token> = Vec::new();
    let mut stack: Vec<Token> = Vec::new();
    let n = tokens.len();
    let mut i: usize = 0;
    while i < n
        invariant
            n == tokens@.len(),
            i <= n,
            convert(tokens@.take(i as int)) == Ok::<ConvState, CalcError>((out@, stack@)),
        decreases n - i,
    {
        let t = tokens[i];
        assert(tokens@.take(i as int + 1).drop_last() =~= tokens@.take(i as int));
        match t {
            Token::Number(_) => out.push(t),
            Token::Op(op) => {
                pop_while_ranked(&mut out, &mut stack, op.operator_precedence());
                stack.push(t);
            },
            Token::Br(Bracket::OpeningParenthesis) => stack.push(t),
            Token::Br(Bracket::ClosingParenthesis) => {
                pop_while_ranked(&mut out, &mut stack, 0);
                let k = stack.len();
                if k > 0 && stack[k - 1] == Token::Br(Bracket::OpeningParenthesis) {
                    stack.pop();
                } else {
                    proof {
                        lemma_convert_err_prefix(tokens@, i as int + 1, CalcError::MismatchedBracket);
                    }
                    return Err(CalcError::MismatchedBracket);
                }
            },
        }
        i = i + 1;
    }
    assert(tokens@.take(n as int) =~= tokens@);
    loop
        invariant
            drain(out@, stack@) == spec_postfix(tokens@),
        decreases stack@.len(),
    {
        match stack.pop() {
            None => {
                proof {
                    lemma_postfix_shape(tokens@);
                }
                return Ok(out);
            },
            Some(t) => {
                if t == Token::Br(Bracket::OpeningParenthesis) {
                    return Err(CalcError::MismatchedBracket);
                }
                out.push(t);
            },
        }
    }
}

} // verus!
