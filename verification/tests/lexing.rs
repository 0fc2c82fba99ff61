use calculator::{CalcError, Parser, Token};

#[test]
fn tokenizes_every_kind_of_token() {
    let tokens = Parser::tokenize(&String::from("12+(3*4)-5/6")).unwrap();
    assert_eq!(
        tokens,
        vec![
            Token::Number(12),
            Token::Add,
            Token::LParen,
            Token::Number(3),
            Token::Mul,
            Token::Number(4),
            Token::RParen,
            Token::Sub,
            Token::Number(5),
            Token::Div,
            Token::Number(6),
        ]
    );
}

#[test]
fn empty_text_has_no_tokens() {
    assert_eq!(Parser::tokenize(&String::new()), Ok(vec![]));
    assert_eq!(Parser::tokenize(&String::from(" \t  ")), Ok(vec![]));
}

#[test]
fn digit_run_is_one_literal() {
    assert_eq!(Parser::tokenize(&String::from("1234567890")), Ok(vec![Token::Number(1234567890)]));
    assert_eq!(Parser::tokenize(&String::from("007")), Ok(vec![Token::Number(7)]));
    assert_eq!(Parser::tokenize(&String::from("0")), Ok(vec![Token::Number(0)]));
}

#[test]
fn blank_between_digits_parts_two_literals() {
    assert_eq!(
        Parser::tokenize(&String::from("12 34")),
        Ok(vec![Token::Number(12), Token::Number(34)])
    );
    assert_eq!(
        Parser::tokenize(&String::from("12\t34")),
        Ok(vec![Token::Number(12), Token::Number(34)])
    );
}

#[test]
fn blanks_elsewhere_change_no_token() {
    let plain = Parser::tokenize(&String::from("(1+23)*4")).unwrap();
    for spaced in ["( 1+23)*4", "(1 +23)*4", "(1+ 23)*4", "(1+23 )*4", "(1+23) *4", "(1+23)* 4",
        " (1+23)*4", "(1+23)*4 ", "\t(\t1\t+\t23\t)\t*\t4\t", "  (  1  +  23  )  *  4  "]
    {
        assert_eq!(Parser::tokenize(&String::from(spaced)).unwrap(), plain, "{:?}", spaced);
    }
}

#[test]
fn token_order_is_not_checked_by_the_lexer() {
    assert_eq!(
        Parser::tokenize(&String::from(")+(")),
        Ok(vec![Token::RParen, Token::Add, Token::LParen])
    );
}

#[test]
fn unknown_character_fails() {
    for text in ["2 & 3", "a", "1 + x", "1.5", "1,2", "1 + 2\n", "\n", "1\r", "2 ^ 3", "1 = 1",
        "é", "1 + ２", "-\u{2212}", "[1]", "1 % 2"]
    {
        assert_eq!(
            Parser::tokenize(&String::from(text)),
            Err(CalcError::UnknownToken),
            "{:?}",
            text
        );
    }
}

#[test]
fn largest_literal_is_accepted() {
    let text = format!("{}", isize::MAX);
    assert_eq!(Parser::tokenize(&text), Ok(vec![Token::Number(isize::MAX)]));
    let padded = format!("000{}", isize::MAX);
    assert_eq!(Parser::tokenize(&padded), Ok(vec![Token::Number(isize::MAX)]));
}

#[test]
fn literal_above_the_largest_overflows() {
    let above = format!("{}", isize::MAX as u128 + 1);
    assert_eq!(Parser::tokenize(&above), Err(CalcError::Overflow));
    assert_eq!(
        Parser::tokenize(&String::from("1 + 99999999999999999999999999999999999999999999 + 2")),
        Err(CalcError::Overflow)
    );
    let tenfold = format!("{}0", isize::MAX);
    assert_eq!(Parser::tokenize(&tenfold), Err(CalcError::Overflow));
}

#[test]
fn unknown_character_outweighs_overflow() {
    assert_eq!(
        Parser::tokenize(&String::from("99999999999999999999999999999999999999999999 & 1")),
        Err(CalcError::UnknownToken)
    );
    assert_eq!(
        Parser::tokenize(&String::from("& 99999999999999999999999999999999999999999999")),
        Err(CalcError::UnknownToken)
    );
}
