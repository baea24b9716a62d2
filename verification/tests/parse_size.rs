use size_expr::{CalcToken, Length, ParseError, Size};

fn length(value: f64) -> Length {
    Length::parse(&format!("{}", value)).unwrap()
}

fn px(value: f64) -> CalcToken {
    CalcToken::Pixels(length(value))
}

fn calculation(tokens: Vec<CalcToken>) -> Result<Size, ParseError> {
    Ok(Size::Calculation(length(1.0), tokens))
}

#[test]
fn parse_pixel_size() {
    let size = Size::parse("123");
    assert_eq!(size, Ok(Size::Pixels(length(123.0))));
}

#[test]
fn parse_relative_size() {
    let size = Size::parse("78.123%");
    assert_eq!(size, Ok(Size::Percentage(length(78.123))));
}

#[test]
fn parse_auto_size() {
    let size = Size::parse("auto");
    assert_eq!(size, Ok(Size::Inner));
}

#[test]
fn parse_calc_size() {
    let size = Size::parse("calc(90%- 5%* 123.6/ 50v(5 + 6))");
    assert_eq!(
        size,
        Ok(Size::Calculation(
            length(1.0),
            vec![
                CalcToken::Percentage(length(90.0)),
                CalcToken::Sub,
                CalcToken::Percentage(length(5.0)),
                CalcToken::Mul,
                CalcToken::Pixels(length(123.6)),
                CalcToken::Div,
                CalcToken::RootPercentage(length(50.0)),
                CalcToken::OpenParen,
                CalcToken::Pixels(length(5.0)),
                CalcToken::Add,
                CalcToken::Pixels(length(6.0)),
                CalcToken::CloseParen,
            ]
        ))
    );
}

#[test]
fn pixels_may_be_signed_and_fractional() {
    assert_eq!(Size::parse("-5"), Ok(Size::Pixels(length(-5.0))));
    assert_eq!(Size::parse("+5"), Ok(Size::Pixels(length(5.0))));
    assert_eq!(Size::parse("0.25"), Ok(Size::Pixels(length(0.25))));
    assert_eq!(Size::parse("-12.5%"), Ok(Size::Percentage(length(-12.5))));
    assert_eq!(Size::parse("0"), Ok(Size::Pixels(length(0.0))));
}

#[test]
fn only_the_exact_word_is_auto() {
    assert_eq!(Size::parse("Auto"), Err(ParseError::MalformedNumber));
    assert_eq!(Size::parse(" auto"), Err(ParseError::MalformedNumber));
    assert_eq!(Size::parse("auto "), Err(ParseError::MalformedNumber));
    assert_eq!(Size::parse("autos"), Err(ParseError::MalformedNumber));
}

#[test]
fn spaces_do_not_change_the_tokens() {
    let expected = calculation(vec![px(1.0), CalcToken::Add, px(2.0), CalcToken::Mul, px(3.0)]);
    assert_eq!(Size::parse("calc(1+2*3)"), expected);
    assert_eq!(Size::parse("calc(1 + 2 * 3)"), expected);
    assert_eq!(Size::parse("calc(  1+ 2 *3  )"), expected);
    assert_eq!(Size::parse("calc(1\t+\n2\r*3)"), expected);
}

#[test]
fn a_sign_where_a_term_is_expected_belongs_to_the_number() {
    assert_eq!(
        Size::parse("calc(2 - -3)"),
        calculation(vec![px(2.0), CalcToken::Sub, px(-3.0)])
    );
    assert_eq!(
        Size::parse("calc(2--3)"),
        calculation(vec![px(2.0), CalcToken::Sub, px(-3.0)])
    );
    assert_eq!(
        Size::parse("calc(2-3)"),
        calculation(vec![px(2.0), CalcToken::Sub, px(3.0)])
    );
    assert_eq!(
        Size::parse("calc(-2*+3)"),
        calculation(vec![px(-2.0), CalcToken::Mul, px(3.0)])
    );
}

#[test]
fn groups_nest_and_multiply_the_term_before_them() {
    assert_eq!(
        Size::parse("calc(((1)))"),
        calculation(vec![
            CalcToken::OpenParen,
            CalcToken::OpenParen,
            px(1.0),
            CalcToken::CloseParen,
            CalcToken::CloseParen,
        ])
    );
    assert_eq!(
        Size::parse("calc(2(3)(4))"),
        calculation(vec![
            px(2.0),
            CalcToken::OpenParen,
            px(3.0),
            CalcToken::CloseParen,
            CalcToken::OpenParen,
            px(4.0),
            CalcToken::CloseParen,
        ])
    );
    assert_eq!(
        Size::parse("calc(2 (3))"),
        calculation(vec![px(2.0), CalcToken::OpenParen, px(3.0), CalcToken::CloseParen])
    );
}

#[test]
fn malformed_inputs_are_errors() {
    assert_eq!(Size::parse("calc(1+)"), Err(ParseError::InvalidExpressionStructure));
    assert_eq!(Size::parse("calc(1 2)"), Err(ParseError::InvalidExpressionStructure));
    assert_eq!(Size::parse("10%%"), Err(ParseError::UnrecognizedUnit));
}

#[test]
fn malformed_numbers() {
    assert_eq!(Size::parse(""), Err(ParseError::MalformedNumber));
    assert_eq!(Size::parse("abc"), Err(ParseError::MalformedNumber));
    assert_eq!(Size::parse("-"), Err(ParseError::MalformedNumber));
    assert_eq!(Size::parse(".5"), Err(ParseError::MalformedNumber));
    assert_eq!(Size::parse("5."), Err(ParseError::MalformedNumber));
    assert_eq!(Size::parse("1.2.3"), Err(ParseError::MalformedNumber));
    assert_eq!(Size::parse("%"), Err(ParseError::MalformedNumber));
    assert_eq!(Size::parse("calc"), Err(ParseError::MalformedNumber));
    assert_eq!(Size::parse("+-5"), Err(ParseError::MalformedNumber));
    assert_eq!(Size::parse("calc(-.5)"), Err(ParseError::MalformedNumber));
    assert_eq!(Size::parse("calc(1.)"), Err(ParseError::MalformedNumber));
    assert_eq!(Size::parse("calc(.5)"), Err(ParseError::MalformedNumber));
    assert_eq!(Size::parse("calc(1.2.3)"), Err(ParseError::MalformedNumber));
}

#[test]
fn unrecognized_units() {
    assert_eq!(Size::parse("10px"), Err(ParseError::UnrecognizedUnit));
    assert_eq!(Size::parse("10v"), Err(ParseError::UnrecognizedUnit));
    assert_eq!(Size::parse("10 %"), Err(ParseError::UnrecognizedUnit));
    assert_eq!(Size::parse("1e5"), Err(ParseError::UnrecognizedUnit));
    assert_eq!(Size::parse("calc(10px)"), Err(ParseError::UnrecognizedUnit));
    assert_eq!(Size::parse("calc(10%%)"), Err(ParseError::UnrecognizedUnit));
    assert_eq!(Size::parse("calc(10vw)"), Err(ParseError::UnrecognizedUnit));
    assert_eq!(Size::parse("calc(10%5)"), Err(ParseError::UnrecognizedUnit));
}

#[test]
fn unbalanced_parentheses() {
    assert_eq!(Size::parse("calc("), Err(ParseError::UnbalancedParentheses));
    assert_eq!(Size::parse("calc(1"), Err(ParseError::UnbalancedParentheses));
    assert_eq!(Size::parse("calc(1 + 2"), Err(ParseError::UnbalancedParentheses));
    assert_eq!(Size::parse("calc((1)"), Err(ParseError::UnbalancedParentheses));
    assert_eq!(Size::parse("calc(1))"), Err(ParseError::UnbalancedParentheses));
    assert_eq!(Size::parse("calc(1)+(2)"), Err(ParseError::UnbalancedParentheses));
    assert_eq!(Size::parse("calc(1+))"), Err(ParseError::UnbalancedParentheses));
}

#[test]
fn invalid_structure() {
    assert_eq!(Size::parse("calc()"), Err(ParseError::InvalidExpressionStructure));
    assert_eq!(Size::parse("calc( )"), Err(ParseError::InvalidExpressionStructure));
    assert_eq!(Size::parse("calc(*2)"), Err(ParseError::InvalidExpressionStructure));
    assert_eq!(Size::parse("calc(1 * * 2)"), Err(ParseError::InvalidExpressionStructure));
    assert_eq!(Size::parse("calc(1 + + 2)"), Err(ParseError::InvalidExpressionStructure));
    assert_eq!(Size::parse("calc(1 * + 2)"), Err(ParseError::InvalidExpressionStructure));
    assert_eq!(Size::parse("calc(-(3))"), Err(ParseError::InvalidExpressionStructure));
    assert_eq!(Size::parse("calc(-)"), Err(ParseError::InvalidExpressionStructure));
    assert_eq!(Size::parse("calc(+-5)"), Err(ParseError::InvalidExpressionStructure));
    assert_eq!(Size::parse("calc(1 +)"), Err(ParseError::InvalidExpressionStructure));
    assert_eq!(Size::parse("calc(())"), Err(ParseError::InvalidExpressionStructure));
    assert_eq!(Size::parse("calc((1+))"), Err(ParseError::InvalidExpressionStructure));
    assert_eq!(Size::parse("calc((1) 2)"), Err(ParseError::InvalidExpressionStructure));
    assert_eq!(Size::parse("calc(1 x)"), Err(ParseError::InvalidExpressionStructure));
    assert_eq!(Size::parse("calc(x)"), Err(ParseError::InvalidExpressionStructure));
    assert_eq!(Size::parse("calc(1 \u{e9})"), Err(ParseError::InvalidExpressionStructure));
}

#[test]
fn parsing_is_a_function_of_the_text() {
    let text = "calc(90%- 5%* 123.6/ 50v(5 + 6))";
    assert_eq!(Size::parse(text), Size::parse(text));
    assert_eq!(Size::parse("1.50"), Size::parse("1.5"));
    assert_eq!(Size::parse("calc(1.50 + 007)"), Size::parse("calc(1.5 + 7)"));
}

#[test]
fn what_is_parsed_is_well_formed() {
    for text in ["1", "2%", "auto", "calc(1)", "calc(90%- 5%* 123.6/ 50v(5 + 6))"] {
        assert!(Size::parse(text).unwrap().is_well_formed());
    }
}
