use calculator::{calculate, CalcError, Expr, Parser, Token};

fn value_of(text: &str) -> Result<isize, CalcError> {
    calculate(&String::from(text))
}

fn leaf(n: isize) -> Box<Expr> {
    Box::new(Expr::Number(n))
}

#[test]
fn multiplication_binds_tighter_than_addition() {
    assert_eq!(value_of("2 + 3 * 4"), Ok(14));
    assert_eq!(value_of("2 * 3 + 4"), Ok(10));
    assert_eq!(value_of("20 - 12 / 4"), Ok(17));
}

#[test]
fn equal_tiers_run_left_to_right() {
    assert_eq!(value_of("8 / 2 - 1 + 5"), Ok(8));
    assert_eq!(value_of("10 - 4 - 3"), Ok(3));
    assert_eq!(value_of("100 / 10 / 5"), Ok(2));
    assert_eq!(value_of("10 / 2 * 3"), Ok(15));
    assert_eq!(value_of("2 * 7 / 4"), Ok(3));
}

#[test]
fn grouping_overrides_precedence() {
    assert_eq!(value_of("(2 + 3) * 4"), Ok(20));
    assert_eq!(value_of("10 - (4 - 3)"), Ok(9));
    assert_eq!(value_of("100 / (10 / 5)"), Ok(50));
}

#[test]
fn whitespace_does_not_matter() {
    assert_eq!(value_of("1+2"), Ok(3));
    assert_eq!(value_of("1 + 2"), Ok(3));
    assert_eq!(value_of(" 1  +   2 "), Ok(3));
    assert_eq!(value_of("\t1\t+\t2\t"), Ok(3));
}

#[test]
fn same_text_gives_same_result() {
    let text = String::from("7 * (4 - 2) + 6 / 3");
    let first = calculate(&text);
    let second = calculate(&text);
    assert_eq!(first, Ok(16));
    assert_eq!(first, second);
    let bad = String::from("7 * (4 - 2");
    assert_eq!(calculate(&bad), calculate(&bad));
    assert_eq!(calculate(&bad), Err(CalcError::MissingToken(Token::RParen)));
}

#[test]
fn unknown_character_yields_unknown_token() {
    assert_eq!(value_of("2 & 3"), Err(CalcError::UnknownToken));
    assert_eq!(value_of("2 + 3 $"), Err(CalcError::UnknownToken));
    assert_eq!(value_of("5 / 0 ?"), Err(CalcError::UnknownToken));
    assert_eq!(value_of("(1 + 2 !"), Err(CalcError::UnknownToken));
}

#[test]
fn unclosed_parenthesis_yields_missing_token() {
    assert_eq!(
        value_of("(1 + 2"),
        Err(CalcError::MissingToken(Token::RParen))
    );
}

#[test]
fn trailing_tokens_are_ignored() {
    assert_eq!(value_of("1 + 2)"), Ok(3));
    assert_eq!(value_of("1 + 2 3"), Ok(3));
    assert_eq!(value_of("4 (5"), Ok(4));
    let mut parser = Parser::new(&String::from("1 + 2)"));
    assert_eq!(parser.eval(), Ok(3));
    assert_eq!(parser.peek(), Some(Token::RParen));
}

#[test]
fn division_truncates_toward_zero() {
    assert_eq!(value_of("7 / 2"), Ok(3));
    assert_eq!(value_of("(0 - 7) / 2"), Ok(-3));
    assert_eq!(value_of("7 / (0 - 2)"), Ok(-3));
    assert_eq!(value_of("(0 - 7) / (0 - 2)"), Ok(3));
    assert_eq!(value_of("1 / 2"), Ok(0));
    assert_eq!(value_of("(0 - 1) / 2"), Ok(0));
    assert_eq!(value_of("0 / 5"), Ok(0));
    assert_eq!(value_of("6 / 3"), Ok(2));
}

#[test]
fn division_by_zero_is_reported() {
    assert_eq!(value_of("5 / 0"), Err(CalcError::DivisionByZero));
    assert_eq!(value_of("0 / 0"), Err(CalcError::DivisionByZero));
    assert_eq!(value_of("1 + 4 / (2 - 2)"), Err(CalcError::DivisionByZero));
    assert_eq!(value_of("(0 - 5) / 0 * 3"), Err(CalcError::DivisionByZero));
}

#[test]
fn subtraction_may_go_below_zero() {
    assert_eq!(value_of("3 - 5"), Ok(-2));
    assert_eq!(value_of("(3 - 5) * 4"), Ok(-8));
    assert_eq!(value_of("0 - 0"), Ok(0));
}

#[test]
fn results_at_the_limits_are_exact() {
    let max = isize::MAX;
    assert_eq!(calculate(&format!("{}", max)), Ok(max));
    assert_eq!(calculate(&format!("{} + 0", max)), Ok(max));
    assert_eq!(calculate(&format!("{} - 1 + 1", max)), Ok(max));
    assert_eq!(calculate(&format!("0 - {} - 1", max)), Ok(isize::MIN));
    assert_eq!(calculate(&format!("(0 - {} - 1) / 1", max)), Ok(isize::MIN));
    assert_eq!(calculate(&format!("(0 - {} - 1) + {}", max, max)), Ok(-1));
    assert_eq!(calculate(&format!("{} / {}", max, max)), Ok(1));
}

#[test]
fn results_beyond_the_limits_overflow() {
    let max = isize::MAX;
    assert_eq!(calculate(&format!("{} + 1", max)), Err(CalcError::Overflow));
    assert_eq!(calculate(&format!("0 - {} - 2", max)), Err(CalcError::Overflow));
    assert_eq!(calculate(&format!("{} * 2", max)), Err(CalcError::Overflow));
    assert_eq!(
        calculate(&format!("(0 - {} - 1) / (0 - 1)", max)),
        Err(CalcError::Overflow)
    );
    assert_eq!(
        calculate(&format!("(0 - {} - 1) * (0 - 1)", max)),
        Err(CalcError::Overflow)
    );
    assert_eq!(calculate(&format!("{} + 1 - 1", max)), Err(CalcError::Overflow));
    assert_eq!(calculate(&format!("{}", max as u128 + 1)), Err(CalcError::Overflow));
}

#[test]
fn left_operand_fails_first() {
    let max = isize::MAX;
    assert_eq!(
        calculate(&format!("({} + 1) + (1 / 0)", max)),
        Err(CalcError::Overflow)
    );
    assert_eq!(
        calculate(&format!("(1 / 0) + ({} + 1)", max)),
        Err(CalcError::DivisionByZero)
    );
}

#[test]
fn earlier_stage_fails_first() {
    assert_eq!(value_of("(1 / 0"), Err(CalcError::MissingToken(Token::RParen)));
    assert_eq!(value_of("1 / 0 +"), Err(CalcError::UnexpectedToken));
    assert_eq!(value_of("1 / 0 + #"), Err(CalcError::UnknownToken));
    assert_eq!(
        value_of("( 99999999999999999999999999999999999999"),
        Err(CalcError::Overflow)
    );
}

#[test]
fn nothing_to_evaluate_is_unexpected_token() {
    assert_eq!(value_of(""), Err(CalcError::UnexpectedToken));
    assert_eq!(value_of("  "), Err(CalcError::UnexpectedToken));
    assert_eq!(value_of("()"), Err(CalcError::UnexpectedToken));
    assert_eq!(value_of("* 2"), Err(CalcError::UnexpectedToken));
}

#[test]
fn solve_reduces_a_tree() {
    assert_eq!(Parser::solve(Expr::Number(5)), Ok(5));
    let sum = Expr::BinaryOp(leaf(2), Token::Add, leaf(3));
    assert_eq!(Parser::solve(sum), Ok(5));
    let difference = Expr::BinaryOp(leaf(2), Token::Sub, leaf(3));
    assert_eq!(Parser::solve(difference), Ok(-1));
    let product = Expr::BinaryOp(leaf(2), Token::Mul, leaf(3));
    assert_eq!(Parser::solve(product), Ok(6));
    let quotient = Expr::BinaryOp(leaf(7), Token::Div, leaf(2));
    assert_eq!(Parser::solve(quotient), Ok(3));
    let nested = Expr::BinaryOp(
        Box::new(Expr::BinaryOp(leaf(2), Token::Add, leaf(3))),
        Token::Mul,
        Box::new(Expr::BinaryOp(leaf(9), Token::Sub, leaf(5))),
    );
    assert_eq!(Parser::solve(nested), Ok(20));
}

#[test]
fn solve_takes_negative_literals() {
    let down = Expr::BinaryOp(leaf(-7), Token::Div, leaf(2));
    assert_eq!(Parser::solve(down), Ok(-3));
    let up = Expr::BinaryOp(leaf(7), Token::Div, leaf(-2));
    assert_eq!(Parser::solve(up), Ok(-3));
    let both = Expr::BinaryOp(leaf(-7), Token::Div, leaf(-2));
    assert_eq!(Parser::solve(both), Ok(3));
    let least = Expr::BinaryOp(leaf(isize::MIN), Token::Div, leaf(-1));
    assert_eq!(Parser::solve(least), Err(CalcError::Overflow));
    let product = Expr::BinaryOp(leaf(-3), Token::Mul, leaf(-4));
    assert_eq!(Parser::solve(product), Ok(12));
    assert_eq!(Parser::solve(Expr::Number(isize::MIN)), Ok(isize::MIN));
}

#[test]
fn solve_reports_failures() {
    let by_zero = Expr::BinaryOp(leaf(5), Token::Div, leaf(0));
    assert_eq!(Parser::solve(by_zero), Err(CalcError::DivisionByZero));
    let too_large = Expr::BinaryOp(leaf(isize::MAX), Token::Add, leaf(1));
    assert_eq!(Parser::solve(too_large), Err(CalcError::Overflow));
    let too_large_product = Expr::BinaryOp(leaf(isize::MAX), Token::Mul, leaf(isize::MAX));
    assert_eq!(Parser::solve(too_large_product), Err(CalcError::Overflow));
}

#[test]
fn eval_records_evaluation_failure() {
    let mut parser = Parser::new(&String::from("1 / 0 2"));
    assert_eq!(parser.eval(), Err(CalcError::DivisionByZero));
    assert_eq!(parser.peek(), Some(Token::Number(2)));
    assert_eq!(parser.eval(), Err(CalcError::DivisionByZero));
    assert_eq!(parser.parse_expr(), Err(CalcError::DivisionByZero));
    assert_eq!(parser.peek(), Some(Token::Number(2)));
}

#[test]
fn eval_continues_after_success() {
    let mut parser = Parser::new(&String::from("1 + 2 3 * 4"));
    assert_eq!(parser.eval(), Ok(3));
    assert_eq!(parser.eval(), Ok(12));
    assert_eq!(parser.eval(), Err(CalcError::UnexpectedToken));
    assert_eq!(parser.eval(), Err(CalcError::UnexpectedToken));
}
