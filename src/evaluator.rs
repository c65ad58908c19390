use vstd::prelude::*;
use crate::token::{in_i128, CalcError, Operator, Token};

verus! {

pub open spec fn abs(a: int) -> int {
    if a < 0 {
        -a
    } else {
        a
    }
}

/// Integer division rounded toward zero.
pub open spec fn trunc_div(a: int, b: int) -> int {
    if (a < 0) == (b < 0) {
        abs(a) / abs(b)
    } else {
        -(abs(a) / abs(b))
    }
}

/// The exact value of `l op r`, before any range check.
pub open spec fn exact_value(op: Operator, l: int, r: int) -> int {
    match op {
        Operator::Add => l + r,
        Operator::Subtract => l - r,
        Operator::Multiply => l * r,
        Operator::Divide => trunc_div(l, r),
    }
}

/// `l op r` as an `i128`, or the error that applying it raises.
pub open spec fn spec_apply(op: Operator, l: i128, r: i128) -> Result<i128, CalcError> {
    if op == Operator::Divide && r == 0 {
        Err(CalcError::DivisionByZero)
    } else if in_i128(exact_value(op, l as int, r as int)) {
        Ok(exact_value(op, l as int, r as int) as i128)
    } else {
        Err(CalcError::IntegerOverflow)
    }
}

/// One postfix token applied to the operand stack.
pub open spec fn eval_step(stack: Seq<i128>, t: Token) -> Result<Seq<i128>, CalcError> {
    match t {
        Token::Number(n) => Ok(stack.push(n)),
        Token::Op(op) => {
            if stack.len() < 2 {
                Err(CalcError::StackUnderflow)
            } else {
                match spec_apply(op, stack[stack.len() - 2], stack.last()) {
                    Ok(v) => Ok(stack.drop_last().drop_last().push(v)),
                    Err(e) => Err(e),
                }
            }
        },
        Token::Br(_) => Ok(stack),
    }
}

/// The operand stack after evaluating all of `ts`.
pub open spec fn eval_stack(ts: Seq<Token>) -> Result<Seq<i128>, CalcError>
    decreases ts.len(),
{
    if ts.len() == 0 {
        Ok(Seq::empty())
    } else {
        match eval_stack(ts.drop_last()) {
            Ok(stack) => eval_step(stack, ts.last()),
            Err(e) => Err(e),
        }
    }
}

/// The value of a postfix token sequence: the single value left on the stack.
pub open spec fn spec_eval_postfix(ts: Seq<Token>) -> Result<i128, CalcError> {
    match eval_stack(ts) {
        Ok(stack) => if stack.len() == 1 {
            Ok(stack[0])
        } else if stack.len() == 0 {
            Err(CalcError::StackUnderflow)
        } else {
            Err(CalcError::TrailingOperands)
        },
        Err(e) => Err(e),
    }
}

proof fn lemma_eval_err_prefix(ts: Seq<Token>, k: int, e: CalcError)
    requires
        0 <= k <= ts.len(),
        eval_stack(ts.take(k)) == Err::<Seq<i128>, CalcError>(e),
    ensures
        eval_stack(ts) == Err::<Seq<i128>, CalcError>(e),
    decreases ts.len() - k,
{
    if k == ts.len() {
        assert(ts.take(k) =~= ts);
    } else {
        assert(ts.take(k + 1).drop_last() =~= ts.take(k));
        lemma_eval_err_prefix(ts, k + 1, e);
    }
}

/// Applies a binary operator, reporting division by zero and results outside `i128`.
pub fn apply_operator(op: Operator, l: i128, r: i128) -> (res: Result<i128, CalcError>)
    ensures
        res == spec_apply(op, l, r),
{
    let v = match op {
        Operator::Add => l.checked_add(r),
        Operator::Subtract => l.checked_sub(r),
        Operator::Multiply => l.checked_mul(r),
        Operator::Divide => {
            if r == 0 {
                return Err(CalcError::DivisionByZero);
            }
            l.checked_div(r)
        },
    };
    match v {
        Some(x) => Ok(x),
        None => Err(CalcError::IntegerOverflow),
    }
}

/// Reduces a postfix token sequence to its value with an operand stack.
pub fn evaluate_postfix(tokens: &Vec<Token>) -> (r: Result<i128, CalcError>)
    ensures
        r == spec_eval_postfix(tokens@),
{
    let mut stack: Vec<i128> = Vec::new();
    let n = tokens.len();
    let mut i: usize = 0;
    while i < n
        invariant
            n == tokens@.len(),
            i <= n,
            eval_stack(tokens@.take(i as int)) == Ok::<Seq<i128>, CalcError>(stack@),
        decreases n - i,
    {
        assert(tokens@.take(i as int + 1).drop_last() =~= tokens@.take(i as int));
        match tokens[i] {
            Token::Number(v) => stack.push(v),
            Token::Op(op) => {
                if stack.len() < 2 {
                    proof {
                        lemma_eval_err_prefix(tokens@, i as int + 1, CalcError::StackUnderflow);
                    }
                    return Err(CalcError::StackUnderflow);
                }
                let right = stack.pop().unwrap();
                let left = stack.pop().unwrap();
                match apply_operator(op, left, right) {
                    Ok(v) => stack.push(v),
                    Err(e) => {
                        proof {
                            lemma_eval_err_prefix(tokens@, i as int + 1, e);
                        }
                        return Err(e);
                    },
                }
            },
            Token::Br(_) => {},
        }
        i = i + 1;
    }
    assert(tokens@.take(n as int) =~= tokens@);
    if stack.len() == 1 {
        Ok(stack[0])
    } else if stack.len() == 0 {
        Err(CalcError::StackUnderflow)
    } else {
        Err(CalcError::TrailingOperands)
    }
}

} // verus!
