use vstd::prelude::*;
use crate::token::{in_i128, seq_result, Bracket, CalcError, Operator, Token};

verus! {

/// The pending sign of a number whose digits have not started yet.
#[derive(Clone, Copy, Debug, PartialEq, Eq, Structural)]
pub enum Sign {
    Plus,
    Minus,
}

/// Two equal signs make `+`, two different ones make `-`.
pub open spec fn compose(left: Sign, right: Sign) -> Sign {
    if left == right {
        Sign::Plus
    } else {
        Sign::Minus
    }
}

pub open spec fn apply_sign(sign: Sign, v: int) -> int {
    match sign {
        Sign::Plus => v,
        Sign::Minus => -v,
    }
}

pub open spec fn is_digit(c: char) -> bool {
    '0' <= c <= '9'
}

/// The characters that separate tokens.
pub open spec fn is_space(c: char) -> bool {
    c == ' ' || c == '\t' || c == '\n' || c == '\r' || c == '\x0C'
}

pub open spec fn all_digits(s: Seq<char>) -> bool {
    forall|i: int| 0 <= i < s.len() ==> is_digit(#[trigger] s[i])
}

/// The value of a run of decimal digits, most significant first.
pub open spec fn digits_value(s: Seq<char>) -> int
    decreases s.len(),
{
    if s.len() == 0 {
        0
    } else {
        digits_value(s.drop_last()) * 10 + (s.last() as int - '0' as int)
    }
}

/// Reading a digit run under a sign.
pub open spec fn read_number(digits: Seq<char>, sign: Sign) -> Result<i128, CalcError> {
    if digits.len() == 0 || !all_digits(digits) {
        Err(CalcError::MalformedNumber)
    } else if in_i128(apply_sign(sign, digits_value(digits))) {
        Ok(apply_sign(sign, digits_value(digits)) as i128)
    } else {
        Err(CalcError::IntegerOverflow)
    }
}

/// Folds one more sign into the pending sign of a number.
pub fn compare_signs(left: Sign, right: Sign) -> (r: Sign)
    ensures
        r == compose(left, right),
{
    match (left, right) {
        (Sign::Plus, Sign::Plus) => Sign::Plus,
        (Sign::Plus, Sign::Minus) => Sign::Minus,
        (Sign::Minus, Sign::Plus) => Sign::Minus,
        (Sign::Minus, Sign::Minus) => Sign::Plus,
    }
}

proof fn lemma_digits_value_nonneg(s: Seq<char>)
    requires
        all_digits(s),
    ensures
        digits_value(s) >= 0,
    decreases s.len(),
{
    if s.len() > 0 {
        assert(is_digit(s[s.len() - 1]));
        lemma_digits_value_nonneg(s.drop_last());
    }
}

/// A prefix of a digit run never reads as more than the whole run.
proof fn lemma_digits_prefix_le(s: Seq<char>, j: int)
    requires
        all_digits(s),
        0 <= j <= s.len(),
    ensures
        0 <= digits_value(s.take(j)) <= digits_value(s),
    decreases s.len(),
{
    lemma_digits_value_nonneg(s.take(j));
    if j < s.len() {
        let t = s.drop_last();
        assert(s.take(j) =~= t.take(j));
        assert(is_digit(s[s.len() - 1]));
        lemma_digits_prefix_le(t, j);
        lemma_digits_value_nonneg(t);
    } else {
        assert(s.take(j) =~= s);
    }
}

/// Reads a run of decimal digits as an `i128` under the given sign.
pub fn parse_number_with_sign(number: &Vec<char>, sign: Sign) -> (r: Result<i128, CalcError>)
    ensures
        r == read_number(number@, sign),
{
    let n = number.len();
    if n == 0 {
        return Err(CalcError::MalformedNumber);
    }
    let mut i: usize = 0;
    while i < n
        invariant
            n == number@.len(),
            i <= n,
            forall|j: int| 0 <= j < i ==> is_digit(#[trigger] number@[j]),
        decreases n - i,
    {
        let c = number[i];
        if !('0' <= c && c <= '9') {
            return Err(CalcError::MalformedNumber);
        }
        i = i + 1;
    }
    let ghost s = number@;
    let mut acc: i128 = 0;
    let mut i: usize = 0;
    while i < n
        invariant
            n == s.len(),
            s == number@,
            all_digits(s),
            i <= n,
            acc == apply_sign(sign, digits_value(s.take(i as int))),
        decreases n - i,
    {
        let c = number[i];
        assert(is_digit(s[i as int]));
        let d = (c as u32 - '0' as u32) as i128;
        assert(s.take(i as int + 1).drop_last() =~= s.take(i as int));
        proof {
            lemma_digits_prefix_le(s, i as int + 1);
            lemma_digits_prefix_le(s, i as int);
        }
        let step = match sign {
            Sign::Plus => match acc.checked_mul(10) {
                Some(m) => m.checked_add(d),
                None => None,
            },
            Sign::Minus => match acc.checked_mul(10) {
                Some(m) => m.checked_sub(d),
                None => None,
            },
        };
        match step {
            Some(v) => {
                acc = v;
            },
            None => {
                proof {
                    lemma_digits_prefix_le(s, n as int);
                    assert(s.take(n as int) =~= s);
                }
                return Err(CalcError::IntegerOverflow);
            },
        }
        i = i + 1;
    }
    assert(s.take(n as int) =~= s);
    Ok(acc)
}

/// Scanning state: tokens emitted so far, digits of the number in progress, pending sign.
pub type ScanState = (Seq<Token>, Seq<char>, Sign);

/// Whether the tokens so far end with a number that a separator closed, after which `+` and `-`
/// are binary just as they are right after a digit.
pub open spec fn ends_operand(tokens: Seq<Token>) -> bool {
    tokens.len() > 0 && tokens.last() is Number
}

/// Emits the number in progress, if any, and resets the pending sign.
pub open spec fn flush_state(st: ScanState) -> Result<ScanState, CalcError> {
    if st.1.len() == 0 {
        Ok(st)
    } else {
        match read_number(st.1, st.2) {
            Ok(n) => Ok((st.0.push(Token::Number(n)), Seq::empty(), Sign::Plus)),
            Err(e) => Err(e),
        }
    }
}

/// Flushes the number in progress, then emits `t`.
pub open spec fn flush_then(st: ScanState, t: Token) -> Result<ScanState, CalcError> {
    match flush_state(st) {
        Ok(f) => Ok((f.0.push(t), f.1, f.2)),
        Err(e) => Err(e),
    }
}

/// The token that a single character stands for, when it stands for one.
pub open spec fn symbol_token(c: char) -> Option<Token> {
    if c == '+' {
        Some(Token::Op(Operator::Add))
    } else if c == '-' {
        Some(Token::Op(Operator::Subtract))
    } else if c == '*' {
        Some(Token::Op(Operator::Multiply))
    } else if c == '/' {
        Some(Token::Op(Operator::Divide))
    } else if c == '(' {
        Some(Token::Br(Bracket::OpeningParenthesis))
    } else if c == ')' {
        Some(Token::Br(Bracket::ClosingParenthesis))
    } else {
        None
    }
}

/// One character of input applied to the scanning state. A `+` or `-` is a binary operator when
/// a number is in progress or the last token is a number; otherwise, after an operator, a bracket
/// or at the start, it folds into the pending sign.
pub open spec fn scan_step(st: ScanState, c: char) -> Result<ScanState, CalcError> {
    if is_digit(c) {
        Ok((st.0, st.1.push(c), st.2))
    } else if (c == '+' || c == '-') && st.1.len() == 0 && !ends_operand(st.0) {
        Ok((st.0, st.1, compose(st.2, if c == '+' { Sign::Plus } else { Sign::Minus })))
    } else if symbol_token(c) is Some {
        flush_then(st, symbol_token(c)->0)
    } else if is_space(c) {
        flush_state(st)
    } else {
        Ok(st)
    }
}

/// The state after scanning all of `s` from the start of a line.
pub open spec fn scan(s: Seq<char>) -> Result<ScanState, CalcError>
    decreases s.len(),
{
    if s.len() == 0 {
        Ok((Seq::empty(), Seq::empty(), Sign::Plus))
    } else {
        match scan(s.drop_last()) {
            Ok(st) => scan_step(st, s.last()),
            Err(e) => Err(e),
        }
    }
}

/// Once scanning a prefix fails, scanning the whole line fails with the same error.
proof fn lemma_scan_err_prefix(s: Seq<char>, k: int, e: CalcError)
    requires
        0 <= k <= s.len(),
        scan(s.take(k)) == Err::<ScanState, CalcError>(e),
    ensures
        scan(s) == Err::<ScanState, CalcError>(e),
    decreases s.len() - k,
{
    if k == s.len() {
        assert(s.take(k) =~= s);
    } else {
        assert(s.take(k + 1).drop_last() =~= s.take(k));
        lemma_scan_err_prefix(s, k + 1, e);
    }
}

/// The characters an expression is written with: digits, separators, operators and brackets.
pub open spec fn is_expression_char(c: char) -> bool {
    is_digit(c) || is_space(c) || symbol_token(c) is Some
}

/// Scanning one more character after a scan that may already have failed.
pub open spec fn scan_next(r: Result<ScanState, CalcError>, c: char) -> Result<ScanState, CalcError> {
    match r {
        Ok(st) => scan_step(st, c),
        Err(e) => Err(e),
    }
}

proof fn lemma_scan_unfold(s: Seq<char>, j: int)
    requires
        0 < j <= s.len(),
    ensures
        scan(s.take(j)) == scan_next(scan(s.take(j - 1)), s[j - 1]),
{
    assert(s.take(j).drop_last() =~= s.take(j - 1));
}

/// After an expression character that is not a digit, no number is in progress.
proof fn lemma_no_digits_after(s: Seq<char>, k: int)
    requires
        0 <= k <= s.len(),
        k == 0 || (is_expression_char(s[k - 1]) && !is_digit(s[k - 1])),
        scan(s.take(k)) is Ok,
    ensures
        (scan(s.take(k))->Ok_0).1.len() == 0,
{
    if k > 0 {
        lemma_scan_unfold(s, k);
    }
}

/// Past the first character after the inserted separator, both scans agree.
proof fn lemma_scan_insert(s: Seq<char>, k: int, w: char, j: int)
    requires
        0 <= k < s.len(),
        1 <= j <= s.len() - k,
        is_space(w),
        forall|i: int| 0 <= i < s.len() ==> is_expression_char(#[trigger] s[i]),
        !(0 < k && is_digit(s[k - 1]) && is_digit(s[k])),
    ensures
        scan(s.insert(k, w).take(k + 1 + j)) == scan(s.take(k + j)),
    decreases j,
{
    let t = s.insert(k, w);
    if j == 1 {
        assert(t.take(k) =~= s.take(k));
        lemma_scan_unfold(t, k + 1);
        lemma_scan_unfold(t, k + 2);
        lemma_scan_unfold(s, k + 1);
        if k > 0 {
            assert(is_expression_char(s[k - 1]));
        }
        assert(is_expression_char(s[k]));
        if scan(s.take(k)) is Ok && (k == 0 || !is_digit(s[k - 1])) {
            lemma_no_digits_after(s, k);
        }
    } else {
        lemma_scan_insert(s, k, w, j - 1);
        lemma_scan_unfold(t, k + 1 + j);
        lemma_scan_unfold(s, k + j);
    }
}

/// Inserting a separator anywhere but between two digits leaves the tokens of an expression
/// unchanged.
pub(crate) proof fn lemma_separator_insertion(s: Seq<char>, k: int, w: char)
    requires
        0 <= k <= s.len(),
        is_space(w),
        forall|i: int| 0 <= i < s.len() ==> is_expression_char(#[trigger] s[i]),
        !(0 < k < s.len() && is_digit(s[k - 1]) && is_digit(s[k])),
    ensures
        spec_tokenize(s.insert(k, w)) == spec_tokenize(s),
{
    let t = s.insert(k, w);
    if k == s.len() {
        assert(t.take(k) =~= s);
        lemma_scan_unfold(t, k + 1);
        assert(t.take(k + 1) =~= t);
    } else {
        lemma_scan_insert(s, k, w, s.len() - k);
        assert(t.take(s.len() as int + 1) =~= t);
        assert(s.take(s.len() as int) =~= s);
    }
}

/// The token sequence of a line of text.
pub open spec fn spec_tokenize(s: Seq<char>) -> Result<Seq<Token>, CalcError> {
    match scan(s) {
        Ok(st) => match flush_state(st) {
            Ok(f) => Ok(f.0),
            Err(e) => Err(e),
        },
        Err(e) => Err(e),
    }
}

fn flush(tokens: &mut Vec<Token>, digits: &mut Vec<char>, sign: &mut Sign) -> (r: Result<(), CalcError>)
    ensures
        match flush_state((old(tokens)@, old(digits)@, *old(sign))) {
            Ok(st) => r is Ok && st == (final(tokens)@, final(digits)@, *final(sign)),
            Err(e) => r == Err::<(), CalcError>(e),
        },
{
    if digits.len() == 0 {
        return Ok(());
    }
    match parse_number_with_sign(digits, *sign) {
        Ok(n) => {
            tokens.push(Token::Number(n));
            *digits = Vec::new();
            *sign = Sign::Plus;
            assert(digits@ =~= Seq::<char>::empty());
            Ok(())
        },
        Err(e) => Err(e),
    }
}

fn symbol_of(c: char) -> (r: Option<Token>)
    ensures
        r == symbol_token(c),
{
    match c {
        '+' => Some(Token::Op(Operator::Add)),
        '-' => Some(Token::Op(Operator::Subtract)),
        '*' => Some(Token::Op(Operator::Multiply)),
        '/' => Some(Token::Op(Operator::Divide)),
        '(' => Some(Token::Br(Bracket::OpeningParenthesis)),
        ')' => Some(Token::Br(Bracket::ClosingParenthesis)),
        _ => None,
    }
}

fn is_separator(c: char) -> (r: bool)
    ensures
        r == is_space(c),
{
    c == ' ' || c == '\t' || c == '\n' || c == '\r' || c == '\x0C'
}

fn ends_with_operand(tokens: &Vec<Token>) -> (r: bool)
    ensures
        r == ends_operand(tokens@),
{
    if tokens.len() == 0 {
        return false;
    }
    match tokens[tokens.len() - 1] {
        Token::Number(_) => true,
        _ => false,
    }
}

/// Splits a line of text into tokens, folding runs of leading signs into the number they precede.
pub fn tokenize(line: &str) -> (r: Result<Vec<Token>, CalcError>)
    ensures
        seq_result(r) == spec_tokenize(line@),
{
    let mut tokens: Vec<Token> = Vec::new();
    let mut digits: Vec<char> = Vec::new();
    let mut sign = Sign::Plus;
    proof {
        broadcast use vstd::string::axiom_spec_iter;
    }
    for c in it: line.chars()
        invariant
            it.seq() == line@,
            scan(line@.take(it.index() as int)) == Ok::<ScanState, CalcError>((tokens@, digits@, sign)),
    {
        let ghost i = it.index();
        assert(line@.take(i as int + 1).drop_last() =~= line@.take(i as int));
        let mut flushed: Result<(), CalcError> = Ok(());
        if '0' <= c && c <= '9' {
            digits.push(c);
        } else if (c == '+' || c == '-') && digits.len() == 0 && !ends_with_operand(&tokens) {
            sign = compare_signs(sign, if c == '+' { Sign::Plus } else { Sign::Minus });
        } else if let Some(t) = symbol_of(c) {
            flushed = flush(&mut tokens, &mut digits, &mut sign);
            if flushed.is_ok() {
                tokens.push(t);
            }
        } else if is_separator(c) {
            flushed = flush(&mut tokens, &mut digits, &mut sign);
        }
        if let Err(e) = flushed {
            proof {
                lemma_scan_err_prefix(line@, i as int + 1, e);
            }
            return Err(e);
        }
    }
    assert(line@.take(line@.len() as int) =~= line@);
    flush(&mut tokens, &mut digits, &mut sign)?;
    Ok(tokens)
}

} // verus!
