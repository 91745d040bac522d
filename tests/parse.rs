use prime::parse::parse_to_integer;

#[test]
fn parses_plain_decimal() {
    assert_eq!(parse_to_integer("0"), Ok(0));
    assert_eq!(parse_to_integer("997"), Ok(997));
    assert_eq!(parse_to_integer("+42"), Ok(42));
}

#[test]
fn parses_with_underscores() {
    assert_eq!(parse_to_integer("1_000_003"), Ok(1_000_003));
    assert_eq!(parse_to_integer("_1__0_"), Ok(10));
    assert_eq!(parse_to_integer("_+5"), Ok(5));
}

#[test]
fn parses_the_largest_value() {
    assert_eq!(parse_to_integer("340282366920938463463374607431768211455"), Ok(u128::MAX));
}

#[test]
fn rejects_overflow() {
    assert_eq!(
        parse_to_integer("340282366920938463463374607431768211456"),
        Err("Not possible to convert '340282366920938463463374607431768211456' into a positive integer".to_string())
    );
}

#[test]
fn rejects_non_numbers() {
    for text in ["", "_", "+", "++1", "-1", "1.5", "12a", " 1", "1+2"] {
        assert_eq!(
            parse_to_integer(text),
            Err(format!("Not possible to convert '{}' into a positive integer", text))
        );
    }
}
