use size_expr::{resolve, ResolutionContext, Size};

/// A small generator of pseudo-random numbers, the same on every run.
struct Dice(u64);

impl Dice {
    fn roll(&mut self, sides: u64) -> u64 {
        self.0 = self
            .0
            .wrapping_mul(6364136223846793005)
            .wrapping_add(1442695040888963407);
        (self.0 >> 33) % sides
    }
}

const PARENT: f64 = 640.0;
const ROOT: f64 = 1920.5;

const NUMBERS: [&str; 12] = [
    "0", "1", "2", "3.5", "10", "0.1", "-4", "123.6", "-0.25", "1000000", "0.001", "+7",
];

fn divide(left: f64, right: f64) -> f64 {
    if right == 0.0 {
        0.0
    } else {
        left / right
    }
}

fn gap(dice: &mut Dice, text: &mut String) {
    for _ in 0..dice.roll(3) {
        text.push(' ');
    }
}

/// Writes a term and returns what it is worth.
fn term(dice: &mut Dice, depth: u32, text: &mut String) -> f64 {
    if depth > 0 && dice.roll(4) == 0 {
        return group(dice, depth - 1, text);
    }
    let number = NUMBERS[dice.roll(NUMBERS.len() as u64) as usize];
    let value: f64 = number.parse().unwrap();
    text.push_str(number);
    match dice.roll(4) {
        0 => {
            text.push('%');
            value / 100.0 * PARENT
        }
        1 => {
            text.push('v');
            value / 100.0 * ROOT
        }
        _ => value,
    }
}

/// Writes a sum between parentheses and returns what it is worth.
fn group(dice: &mut Dice, depth: u32, text: &mut String) -> f64 {
    text.push('(');
    gap(dice, text);
    let value = sum(dice, depth, text);
    gap(dice, text);
    text.push(')');
    value
}

/// Writes a product and returns what it is worth.
fn product(dice: &mut Dice, depth: u32, text: &mut String) -> f64 {
    let mut value = term(dice, depth, text);
    for _ in 0..dice.roll(3) {
        gap(dice, text);
        match dice.roll(if depth > 0 { 3 } else { 2 }) {
            0 => {
                text.push('*');
                gap(dice, text);
                value *= term(dice, depth, text);
            }
            1 => {
                text.push('/');
                gap(dice, text);
                value = divide(value, term(dice, depth, text));
            }
            _ => {
                value *= group(dice, depth - 1, text);
            }
        }
    }
    value
}

/// Writes a sum and returns what it is worth.
fn sum(dice: &mut Dice, depth: u32, text: &mut String) -> f64 {
    let mut value = product(dice, depth, text);
    for _ in 0..dice.roll(3) {
        gap(dice, text);
        if dice.roll(2) == 0 {
            text.push('+');
            gap(dice, text);
            value += product(dice, depth, text);
        } else {
            text.push('-');
            gap(dice, text);
            value -= product(dice, depth, text);
        }
    }
    value
}

#[test]
fn random_expressions_resolve_as_the_grammar_says() {
    let ctx = ResolutionContext {
        parent_dimension: PARENT.to_bits(),
        root_dimension: ROOT.to_bits(),
        measured_content_size: 0,
    };
    let mut dice = Dice(2024);
    for _ in 0..3000 {
        let mut text = String::from("calc(");
        gap(&mut dice, &mut text);
        let value = sum(&mut dice, 3, &mut text);
        gap(&mut dice, &mut text);
        text.push(')');
        let expected = if value.is_nan() || value.is_sign_negative() {
            0.0
        } else {
            value
        };
        let size = Size::parse(&text).unwrap();
        assert!(size.is_well_formed(), "{}", text);
        assert_eq!(resolve(&size, ctx), expected.to_bits(), "{}", text);
        let written = String::from_utf8(size.to_bytes()).unwrap();
        assert_eq!(Size::parse(&written), Ok(size), "{}", text);
    }
}
