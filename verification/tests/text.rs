use size_expr::{ParseError, Size};

fn written(input: &str) -> String {
    String::from_utf8(Size::parse(input).unwrap().to_bytes()).unwrap()
}

#[test]
fn a_size_is_written_in_one_way() {
    assert_eq!(written("123"), "123");
    assert_eq!(written("+0123.60"), "123.6");
    assert_eq!(written("78.123%"), "78.123%");
    assert_eq!(written("auto"), "auto");
    assert_eq!(written("calc(1)"), "calc(1)");
    assert_eq!(written("calc(1+2)"), "calc(1 + 2)");
    assert_eq!(
        written("calc(90%- 5%* 123.6/ 50v(5 + 6))"),
        "calc(90% - 5% * 123.6 / 50v ( 5 + 6 ))"
    );
    assert_eq!(written("calc(2--3)"), "calc(2 - -3)");
}

#[test]
fn reading_what_was_written_gives_the_size_back() {
    for input in [
        "0",
        "123",
        "-5",
        "+5.50",
        "78.123%",
        "-0%",
        "auto",
        "calc(1)",
        "calc(-1)",
        "calc(2 - -3)",
        "calc(2--3*+4)",
        "calc(90%- 5%* 123.6/ 50v(5 + 6))",
        "calc(((1)))",
        "calc(2(3)(4))",
        "calc( 1+2 *(3- 4)/5v )",
    ] {
        let size = Size::parse(input).unwrap();
        let text = String::from_utf8(size.to_bytes()).unwrap();
        assert_eq!(Size::parse(&text), Ok(size), "{}", input);
        assert_eq!(Size::parse_bytes(text.as_bytes()), Size::parse(input), "{}", input);
        assert_eq!(written(&text), text, "{}", input);
    }
}

#[test]
fn bytes_are_read_as_text_is() {
    assert_eq!(Size::parse_bytes(b"auto"), Ok(Size::Inner));
    assert_eq!(Size::parse_bytes(b"12%"), Size::parse("12%"));
    assert_eq!(Size::parse_bytes(b"calc(1 \xff)"), Err(ParseError::InvalidExpressionStructure));
    assert_eq!(Size::parse_bytes(b"\xff"), Err(ParseError::MalformedNumber));
}
