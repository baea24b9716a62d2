use size_expr::binary64::{is_zero, non_negative};
use size_expr::eval::{apply_operator, percent};
use size_expr::size::{is_well_formed, Operator};
use size_expr::{evaluate, resolve, CalcToken, Length, ResolutionContext, Size};

fn context(parent: f64, root: f64, content: f64) -> ResolutionContext {
    ResolutionContext {
        parent_dimension: parent.to_bits(),
        root_dimension: root.to_bits(),
        measured_content_size: content.to_bits(),
    }
}

fn resolved(text: &str, ctx: ResolutionContext) -> f64 {
    let size = Size::parse(text).unwrap();
    assert!(size.is_well_formed());
    f64::from_bits(resolve(&size, ctx))
}

fn length(value: f64) -> Length {
    Length::parse(&format!("{}", value)).unwrap()
}

#[test]
fn multiplication_binds_tighter_than_addition() {
    assert_eq!(resolved("calc(2 + 3 * 4)", context(0.0, 0.0, 0.0)), 14.0);
    assert_eq!(resolved("calc(2 + 3 * 4)", context(200.0, 300.0, 7.0)), 14.0);
    assert_eq!(resolved("calc(2 * 3 + 4)", context(200.0, 300.0, 7.0)), 10.0);
    assert_eq!(resolved("calc(20 - 12 / 4)", context(200.0, 300.0, 7.0)), 17.0);
}

#[test]
fn parentheses_group() {
    assert_eq!(resolved("calc((2 + 3) * 4)", context(200.0, 300.0, 7.0)), 20.0);
    assert_eq!(resolved("calc(2 * (3 + 4))", context(200.0, 300.0, 7.0)), 14.0);
    assert_eq!(resolved("calc(((2 + 3)) * ((4)))", context(1.0, 1.0, 1.0)), 20.0);
    assert_eq!(resolved("calc(100 / (2 * (3 + 2)))", context(1.0, 1.0, 1.0)), 10.0);
}

#[test]
fn units_resolve_against_their_dimension() {
    let ctx = context(200.0, 300.0, 7.0);
    assert_eq!(resolved("50%", ctx), 100.0);
    assert_eq!(resolved("calc(50v)", ctx), 150.0);
    assert_eq!(resolved("calc(50%)", ctx), 100.0);
    assert_eq!(resolved("calc(50% + 50v)", ctx), 250.0);
    assert_eq!(resolved("calc(100% - 10)", ctx), 190.0);
}

#[test]
fn closed_forms_resolve_directly() {
    let ctx = context(200.0, 300.0, 7.0);
    assert_eq!(resolved("123", ctx), 123.0);
    assert_eq!(resolved("123.6", ctx), 123.6);
    assert_eq!(resolved("-5", ctx), -5.0);
    assert_eq!(resolved("78.123%", ctx), 78.123 / 100.0 * 200.0);
    assert_eq!(resolved("auto", ctx), 7.0);
}

#[test]
fn each_operator_computes() {
    let ctx = context(0.0, 0.0, 0.0);
    assert_eq!(resolved("calc(2 + 3)", ctx), 5.0);
    assert_eq!(resolved("calc(5 - 3)", ctx), 2.0);
    assert_eq!(resolved("calc(2 * 3)", ctx), 6.0);
    assert_eq!(resolved("calc(6 / 3)", ctx), 2.0);
    assert_eq!(resolved("calc(0.1 + 0.2)", ctx), 0.1 + 0.2);
    assert_eq!(resolved("calc(1 / 3)", ctx), 1.0 / 3.0);
}

#[test]
fn operators_of_one_kind_go_from_left_to_right() {
    let ctx = context(0.0, 0.0, 0.0);
    assert_eq!(resolved("calc(10 - 4 - 3)", ctx), 3.0);
    assert_eq!(resolved("calc(10 - 4 + 3)", ctx), 9.0);
    assert_eq!(resolved("calc(100 / 10 / 2)", ctx), 5.0);
    assert_eq!(resolved("calc(100 / 10 * 2)", ctx), 20.0);
    assert_eq!(resolved("calc(1 + 2 * 3 - 4 / 2 + 5)", ctx), 10.0);
}

#[test]
fn a_group_behind_a_term_multiplies() {
    let ctx = context(200.0, 300.0, 7.0);
    assert_eq!(resolved("calc(2(3))", ctx), 6.0);
    assert_eq!(resolved("calc(2(3)(4))", ctx), 24.0);
    assert_eq!(resolved("calc(1 + 2(3 + 4))", ctx), 15.0);
    assert_eq!(resolved("calc(12 / 2(3))", ctx), 18.0);
    assert_eq!(resolved("calc(50v(5 + 6))", ctx), 1650.0);
    assert_eq!(
        resolved("calc(90%- 5%* 123.6/ 50v(5 + 6))", ctx),
        (180.0 - 10.0 * 123.6 / 150.0 * 11.0_f64).max(0.0)
    );
}

#[test]
fn division_by_zero_gives_zero() {
    let ctx = context(0.0, 0.0, 0.0);
    assert_eq!(resolved("calc(5 / 0)", ctx), 0.0);
    assert_eq!(resolved("calc(5 / -0)", ctx), 0.0);
    assert_eq!(resolved("calc(1 + 5 / 0)", ctx), 1.0);
    assert_eq!(resolved("calc(5 / (2 - 2))", ctx), 0.0);
    assert_eq!(resolved("calc(5 / 0%)", ctx), 0.0);
    assert_eq!(resolved("calc(0 / 0)", ctx), 0.0);
}

#[test]
fn a_negative_result_is_clamped_to_zero() {
    let ctx = context(200.0, 300.0, 7.0);
    assert_eq!(resolved("calc(2 - 3)", ctx), 0.0);
    assert_eq!(resolved("calc(-5)", ctx), 0.0);
    assert_eq!(resolved("calc(0 * -1)", ctx).to_bits(), 0);
    assert_eq!(resolved("calc(10% - 50v)", ctx), 0.0);
}

#[test]
fn the_factor_of_a_calculation_scales_its_result() {
    let ctx = context(200.0, 300.0, 7.0);
    let tokens = vec![
        CalcToken::Pixels(length(2.0)),
        CalcToken::Add,
        CalcToken::Pixels(length(3.0)),
    ];
    assert_eq!(f64::from_bits(evaluate(&tokens, ctx)), 5.0);
    let doubled = Size::Calculation(length(2.0), tokens.clone());
    assert!(doubled.is_well_formed());
    assert_eq!(f64::from_bits(resolve(&doubled, ctx)), 10.0);
    let negated = Size::Calculation(length(-1.0), tokens);
    assert_eq!(f64::from_bits(resolve(&negated, ctx)), 0.0);
}

#[test]
fn evaluating_twice_gives_the_same_bits() {
    let ctx = context(333.3, 77.7, 1.0);
    let size = Size::parse("calc(90%- 5%* 123.6/ 50v(5 + 6) + 1000)").unwrap();
    let first = resolve(&size, ctx);
    let second = resolve(&size, ctx);
    assert_eq!(first, second);
    if let Size::Calculation(_, tokens) = &size {
        assert_eq!(evaluate(tokens, ctx), evaluate(tokens, ctx));
        assert_eq!(first, evaluate(tokens, ctx));
    } else {
        panic!("not a calculation");
    }
}

#[test]
fn pixels_alone_ignore_the_context() {
    let size = Size::parse("calc(2 + 3 * (4 - 1) / 2)").unwrap();
    let one = resolve(&size, context(1.0, 2.0, 3.0));
    let other = resolve(&size, context(1000.0, -2.0, f64::NAN));
    assert_eq!(one, other);
    assert_eq!(f64::from_bits(one), 6.5);
}

#[test]
fn well_formed_token_sequences() {
    let one = || CalcToken::Pixels(length(1.0));
    assert!(is_well_formed(&[one()]));
    assert!(is_well_formed(&[one(), CalcToken::Add, one()]));
    assert!(is_well_formed(&[CalcToken::OpenParen, one(), CalcToken::CloseParen]));
    assert!(is_well_formed(&[one(), CalcToken::OpenParen, one(), CalcToken::CloseParen]));
    assert!(is_well_formed(&[
        CalcToken::OpenParen,
        one(),
        CalcToken::CloseParen,
        CalcToken::OpenParen,
        one(),
        CalcToken::CloseParen
    ]));
    assert!(!is_well_formed(&[]));
    assert!(!is_well_formed(&[one(), one()]));
    assert!(!is_well_formed(&[one(), CalcToken::Add]));
    assert!(!is_well_formed(&[CalcToken::Add, one()]));
    assert!(!is_well_formed(&[one(), CalcToken::Add, CalcToken::Mul, one()]));
    assert!(!is_well_formed(&[CalcToken::OpenParen, one()]));
    assert!(!is_well_formed(&[one(), CalcToken::CloseParen]));
    assert!(!is_well_formed(&[CalcToken::OpenParen, CalcToken::CloseParen]));
    assert!(!is_well_formed(&[CalcToken::OpenParen, one(), CalcToken::CloseParen, one()]));
    assert!(!Size::Calculation(length(1.0), vec![]).is_well_formed());
    assert!(Size::Inner.is_well_formed());
}

#[test]
fn operators_on_bit_patterns() {
    let bits = |value: f64| value.to_bits();
    assert_eq!(apply_operator(Operator::Add, bits(1.5), bits(2.25)), bits(3.75));
    assert_eq!(apply_operator(Operator::Sub, bits(1.5), bits(2.25)), bits(-0.75));
    assert_eq!(apply_operator(Operator::Mul, bits(1.5), bits(2.0)), bits(3.0));
    assert_eq!(apply_operator(Operator::Div, bits(1.5), bits(2.0)), bits(0.75));
    assert_eq!(apply_operator(Operator::Div, bits(1.5), bits(0.0)), bits(0.0));
    assert_eq!(apply_operator(Operator::Div, bits(1.5), bits(-0.0)), bits(0.0));
    assert_eq!(percent(bits(50.0), bits(200.0)), bits(100.0));
    assert_eq!(percent(bits(12.5), bits(80.0)), bits(10.0));
}

#[test]
fn zeros_and_clamping_on_bit_patterns() {
    assert!(is_zero(0.0_f64.to_bits()));
    assert!(is_zero((-0.0_f64).to_bits()));
    assert!(!is_zero(1.0_f64.to_bits()));
    assert!(!is_zero(f64::MIN_POSITIVE.to_bits()));
    assert_eq!(non_negative(3.5_f64.to_bits()), 3.5_f64.to_bits());
    assert_eq!(non_negative(f64::INFINITY.to_bits()), f64::INFINITY.to_bits());
    assert_eq!(non_negative((-3.5_f64).to_bits()), 0);
    assert_eq!(non_negative((-0.0_f64).to_bits()), 0);
    assert_eq!(non_negative(f64::NEG_INFINITY.to_bits()), 0);
    assert_eq!(non_negative(f64::NAN.to_bits()), 0);
    assert_eq!(non_negative((-f64::NAN).to_bits()), 0);
}

#[test]
fn software_arithmetic_agrees_with_the_machine() {
    let values: [f64; 9] =
        [0.0, 1.0, -1.0, 0.1, 123.6, 1e300, -1e300, 5e-324, 1.7976931348623157e308];
    for a in values {
        for b in values {
            let (x, y) = (a.to_bits(), b.to_bits());
            assert_eq!(f64::from_bits(apply_operator(Operator::Add, x, y)), a + b);
            assert_eq!(f64::from_bits(apply_operator(Operator::Sub, x, y)), a - b);
            assert_eq!(f64::from_bits(apply_operator(Operator::Mul, x, y)), a * b);
            if b != 0.0 {
                assert_eq!(f64::from_bits(apply_operator(Operator::Div, x, y)), a / b);
            }
        }
    }
}
