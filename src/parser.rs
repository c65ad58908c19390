use vstd::prelude::*;
use crate::converter::{postfix, spec_postfix};
use crate::evaluator::{evaluate_postfix, spec_eval_postfix};
use crate::token::{seq_result, CalcError, Token};
use crate::tokenizer::{
    is_digit, is_expression_char, is_space, lemma_separator_insertion, spec_tokenize, tokenize,
};

verus! {

/// The value of a token sequence: converted to postfix form, then reduced.
pub open spec fn spec_compute(ts: Seq<Token>) -> Result<i128, CalcError> {
    match spec_postfix(ts) {
        Ok(p) => spec_eval_postfix(p),
        Err(e) => Err(e),
    }
}

/// The value of a line of text, or the error that evaluating it raises.
pub open spec fn spec_evaluate(line: Seq<char>) -> Result<i128, CalcError> {
    match spec_tokenize(line) {
        Ok(ts) => spec_compute(ts),
        Err(e) => Err(e),
    }
}

/// Inserting a separator anywhere but between two digits changes neither the tokens nor the value
/// of an expression.
pub proof fn lemma_whitespace_tolerance(s: Seq<char>, k: int, w: char)
    requires
        0 <= k <= s.len(),
        is_space(w),
        forall|i: int| 0 <= i < s.len() ==> is_expression_char(#[trigger] s[i]),
        !(0 < k < s.len() && is_digit(s[k - 1]) && is_digit(s[k])),
    ensures
        spec_tokenize(s.insert(k, w)) == spec_tokenize(s),
        spec_evaluate(s.insert(k, w)) == spec_evaluate(s),
{
    lemma_separator_insertion(s, k, w);
}

/// One expression: its text, its tokens (or the error that tokenizing raised), and the last
/// value computed from it.
pub struct Parser {
    tokens: Result<Vec<Token>, CalcError>,
    expression: String,
    result: i128,
}

impl Parser {
    /// The text the parser was made from.
    pub closed spec fn expression_view(&self) -> Seq<char> {
        self.expression@
    }

    /// The tokens of the text, or the error that tokenizing raised.
    pub closed spec fn tokens_view(&self) -> Result<Seq<Token>, CalcError> {
        seq_result(self.tokens)
    }

    /// The last value that `compute` produced, zero before any.
    pub closed spec fn result_view(&self) -> i128 {
        self.result
    }

    /// The parser's tokens are those of its text.
    pub closed spec fn wf(&self) -> bool {
        seq_result(self.tokens) == spec_tokenize(self.expression@)
    }

    /// Tokenizes `expression`; a tokenizing error is kept and reported by `compute`.
    pub fn new(expression: &str) -> (p: Parser)
        ensures
            p.wf(),
            p.expression_view() == expression@,
            p.tokens_view() == spec_tokenize(expression@),
            p.result_view() == 0,
    {
        let tokens = tokenize(expression);
        Parser { tokens, expression: expression.to_string(), result: 0 }
    }

    /// The last value that `compute` produced.
    pub fn result(&self) -> (r: i128)
        ensures
            r == self.result_view(),
    {
        self.result
    }

    /// Evaluates the expression, and records the value on success.
    pub fn compute(&mut self) -> (r: Result<i128, CalcError>)
        requires
            old(self).wf(),
        ensures
            final(self).wf(),
            r == match old(self).tokens_view() {
                Ok(ts) => spec_compute(ts),
                Err(e) => Err(e),
            },
            r == spec_evaluate(old(self).expression_view()),
            final(self).expression_view() == old(self).expression_view(),
            final(self).tokens_view() == old(self).tokens_view(),
            final(self).result_view() == match r {
                Ok(v) => v,
                Err(_) => old(self).result_view(),
            },
    {
        let value = match &self.tokens {
            Err(e) => Err(*e),
            Ok(tokens) => match postfix(tokens) {
                Err(e) => Err(e),
                Ok(queue) => evaluate_postfix(&queue),
            },
        };
        if let Ok(v) = value {
            self.result = v;
        }
        value
    }
}

/// Evaluates one line of text to an integer, or to the error that stops it.
pub fn evaluate(line: &str) -> (r: Result<i128, CalcError>)
    ensures
        r == spec_evaluate(line@),
{
    let mut parser = Parser::new(line);
    parser.compute()
}

} // verus!
