use calculator::converter::postfix;
use calculator::evaluator::{apply_operator, evaluate_postfix};
use calculator::tokenizer::{compare_signs, parse_number_with_sign, tokenize, Sign};
use calculator::{evaluate, Bracket, CalcError, Operator, Parser, Token};

fn num(n: i128) -> Token {
    Token::Number(n)
}

fn op(o: Operator) -> Token {
    Token::Op(o)
}

fn digits(s: &str) -> Vec<char> {
    s.chars().collect()
}

#[test]
fn precedence_of_multiplication() {
    assert_eq!(evaluate("1+2*3"), Ok(7));
    assert_eq!(evaluate("(1+2)*3"), Ok(9));
}

#[test]
fn equal_precedence_is_left_to_right() {
    assert_eq!(evaluate("8-3-2"), Ok(3));
    assert_eq!(evaluate("20/4/5"), Ok(1));
}

#[test]
fn sign_runs_compose() {
    assert_eq!(evaluate("--3"), Ok(3));
    assert_eq!(evaluate("2--3"), Ok(5));
    assert_eq!(evaluate("2+-3"), Ok(-1));
}

#[test]
fn whitespace_is_tolerated() {
    assert_eq!(evaluate("1 + 2 * 3"), Ok(7));
    assert_eq!(evaluate("1 + 2 * 3"), evaluate("1+2*3"));
}

#[test]
fn division_truncates_toward_zero() {
    assert_eq!(evaluate("7/2"), Ok(3));
    assert_eq!(evaluate("-7/2"), Ok(-3));
}

#[test]
fn division_by_zero_is_reported() {
    assert_eq!(evaluate("5/0"), Err(CalcError::DivisionByZero));
}

#[test]
fn mismatched_brackets_are_reported() {
    assert_eq!(evaluate("(1+2"), Err(CalcError::MismatchedBracket));
    assert_eq!(evaluate("1+2)"), Err(CalcError::MismatchedBracket));
}

#[test]
fn nested_grouping() {
    assert_eq!(evaluate("((1+2)*(3+4))"), Ok(21));
}

#[test]
fn lower_rank_after_higher_rank_pops_both() {
    assert_eq!(evaluate("1-2*3+4"), Ok(-1));
    assert_eq!(evaluate("2*3-8/4+1"), Ok(5));
}

#[test]
fn sign_after_closing_bracket_folds_into_next_number() {
    assert_eq!(evaluate("(1+2)-3"), Err(CalcError::TrailingOperands));
    assert_eq!(
        tokenize("(1)-2"),
        Ok(vec![
            Token::Br(Bracket::OpeningParenthesis),
            num(1),
            Token::Br(Bracket::ClosingParenthesis),
            num(-2),
        ])
    );
    assert_eq!(
        tokenize("(1)-170141183460469231731687303715884105728"),
        Ok(vec![
            Token::Br(Bracket::OpeningParenthesis),
            num(1),
            Token::Br(Bracket::ClosingParenthesis),
            num(i128::MIN),
        ])
    );
}

#[test]
fn sign_after_operator() {
    assert_eq!(evaluate("2*-3"), Ok(-6));
    assert_eq!(evaluate("-2*3"), Ok(-6));
    assert_eq!(evaluate("1 - -2"), Ok(3));
}

#[test]
fn single_number() {
    assert_eq!(evaluate("42"), Ok(42));
    assert_eq!(evaluate("  -17  "), Ok(-17));
}

#[test]
fn unknown_characters_are_ignored() {
    assert_eq!(evaluate("1a+b2"), Ok(3));
}

#[test]
fn empty_line_underflows() {
    assert_eq!(evaluate(""), Err(CalcError::StackUnderflow));
    assert_eq!(evaluate("   "), Err(CalcError::StackUnderflow));
}

#[test]
fn missing_operand_underflows() {
    assert_eq!(evaluate("1+"), Err(CalcError::StackUnderflow));
    assert_eq!(evaluate("*2"), Err(CalcError::StackUnderflow));
}

#[test]
fn separated_numbers_leave_trailing_operands() {
    assert_eq!(evaluate("2 3"), Err(CalcError::TrailingOperands));
}

#[test]
fn literal_range_limits() {
    assert_eq!(evaluate("170141183460469231731687303715884105727"), Ok(i128::MAX));
    assert_eq!(evaluate("-170141183460469231731687303715884105728"), Ok(i128::MIN));
    assert_eq!(
        evaluate("170141183460469231731687303715884105728"),
        Err(CalcError::IntegerOverflow)
    );
}

#[test]
fn intermediate_overflow_is_reported() {
    assert_eq!(
        evaluate("170141183460469231731687303715884105727+1"),
        Err(CalcError::IntegerOverflow)
    );
    assert_eq!(
        evaluate("-170141183460469231731687303715884105728/-1"),
        Err(CalcError::IntegerOverflow)
    );
    assert_eq!(
        evaluate("100000000000000000000*100000000000000000000"),
        Err(CalcError::IntegerOverflow)
    );
}

#[test]
fn tokens_of_a_line() {
    assert_eq!(
        tokenize("(12 - -3)*4"),
        Ok(vec![
            Token::Br(Bracket::OpeningParenthesis),
            num(12),
            op(Operator::Subtract),
            num(-3),
            Token::Br(Bracket::ClosingParenthesis),
            op(Operator::Multiply),
            num(4),
        ])
    );
}

#[test]
fn sign_is_reset_after_each_number() {
    assert_eq!(
        tokenize("-2/3"),
        Ok(vec![num(-2), op(Operator::Divide), num(3)])
    );
}

#[test]
fn postfix_order() {
    let infix = vec![
        num(1),
        op(Operator::Add),
        num(2),
        op(Operator::Multiply),
        num(3),
    ];
    assert_eq!(
        postfix(&infix),
        Ok(vec![num(1), num(2), num(3), op(Operator::Multiply), op(Operator::Add)])
    );
}

#[test]
fn postfix_drops_brackets() {
    let infix = vec![
        Token::Br(Bracket::OpeningParenthesis),
        num(1),
        op(Operator::Add),
        num(2),
        Token::Br(Bracket::ClosingParenthesis),
        op(Operator::Multiply),
        num(3),
    ];
    assert_eq!(
        postfix(&infix),
        Ok(vec![num(1), num(2), op(Operator::Add), num(3), op(Operator::Multiply)])
    );
}

#[test]
fn postfix_rejects_unclosed_bracket() {
    let infix = vec![Token::Br(Bracket::OpeningParenthesis), num(1)];
    assert_eq!(postfix(&infix), Err(CalcError::MismatchedBracket));
}

#[test]
fn postfix_values() {
    let queue = vec![num(20), num(4), op(Operator::Divide), num(5), op(Operator::Divide)];
    assert_eq!(evaluate_postfix(&queue), Ok(1));
    assert_eq!(evaluate_postfix(&vec![num(1), num(2)]), Err(CalcError::TrailingOperands));
    assert_eq!(evaluate_postfix(&vec![num(1), op(Operator::Add)]), Err(CalcError::StackUnderflow));
}

#[test]
fn operators_apply_exactly() {
    assert_eq!(apply_operator(Operator::Add, 2, 3), Ok(5));
    assert_eq!(apply_operator(Operator::Subtract, 2, 3), Ok(-1));
    assert_eq!(apply_operator(Operator::Multiply, -4, 3), Ok(-12));
    assert_eq!(apply_operator(Operator::Divide, 7, -2), Ok(-3));
    assert_eq!(apply_operator(Operator::Divide, -7, -2), Ok(3));
    assert_eq!(apply_operator(Operator::Divide, 1, 0), Err(CalcError::DivisionByZero));
}

#[test]
fn sign_composition() {
    assert_eq!(compare_signs(Sign::Plus, Sign::Plus), Sign::Plus);
    assert_eq!(compare_signs(Sign::Plus, Sign::Minus), Sign::Minus);
    assert_eq!(compare_signs(Sign::Minus, Sign::Plus), Sign::Minus);
    assert_eq!(compare_signs(Sign::Minus, Sign::Minus), Sign::Plus);
}

#[test]
fn numbers_read_with_sign() {
    assert_eq!(parse_number_with_sign(&digits("042"), Sign::Plus), Ok(42));
    assert_eq!(parse_number_with_sign(&digits("42"), Sign::Minus), Ok(-42));
    assert_eq!(parse_number_with_sign(&digits(""), Sign::Plus), Err(CalcError::MalformedNumber));
    assert_eq!(parse_number_with_sign(&digits("4x2"), Sign::Plus), Err(CalcError::MalformedNumber));
    assert_eq!(
        parse_number_with_sign(&digits("999999999999999999999999999999999999999"), Sign::Minus),
        Err(CalcError::IntegerOverflow)
    );
}

#[test]
fn operator_ranks() {
    assert_eq!(Operator::Multiply.operator_precedence(), 3);
    assert_eq!(Operator::Divide.operator_precedence(), 3);
    assert_eq!(Operator::Add.operator_precedence(), 2);
    assert_eq!(Operator::Subtract.operator_precedence(), 2);
    assert_eq!(Bracket::OpeningParenthesis.operator_precedence(), 6);
}

#[test]
fn parser_records_result() {
    let mut parser = Parser::new("6*7");
    assert_eq!(parser.result(), 0);
    assert_eq!(parser.compute(), Ok(42));
    assert_eq!(parser.result(), 42);
    let mut failing = Parser::new("1/0");
    assert_eq!(failing.compute(), Err(CalcError::DivisionByZero));
    assert_eq!(failing.result(), 0);
}

#[test]
fn separators_between_non_digits_change_nothing() {
    assert_eq!(tokenize(" ( 12 -\t-3 ) * 4 "), tokenize("(12--3)*4"));
    assert_eq!(evaluate(" ( 12 -\t-3 ) * 4 "), Ok(60));
    assert_eq!(evaluate("2 - - 3"), evaluate("2--3"));
}
