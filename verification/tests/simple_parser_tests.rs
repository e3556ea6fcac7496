use brainfuck::simple_parser::{parse, Token};

#[test]
fn lib_parse_should_success() {
    let actual = parse(">[[]<]").unwrap();

    assert_eq!(2, actual.tokens().len());
    assert_eq!(Token::PointerIncrement, actual.tokens()[0]);
    match &actual.tokens()[1] {
        Token::SubGroup(tg) => {
            assert!(matches!(& tg.tokens()[0], Token::SubGroup(x) if x.tokens().len() ==0));
            assert_eq!(Token::PointerDecrement, tg.tokens()[1]);
        }
        _ => assert!(false),
    }
}

#[test]
fn lib_parse_more_start_should_error() {
    assert_eq!(true, parse("[").is_err());
}

#[test]
fn lib_parse_more_stop_should_error() {
    assert_eq!(true, parse("]").is_err());
}

#[test]
fn lib_parse_accept_reads_input() {
    let actual = parse(",.").unwrap();
    assert_eq!(Token::Accept, actual.tokens()[0]);
    assert_eq!(Token::Output, actual.tokens()[1]);
}

#[test]
fn lib_parse_whitespace_ends_the_program() {
    // an unbracketed whitespace character ends the token stream; a trailing
    // one is fine, anything after it is not
    let ok = parse("+> ").unwrap();
    assert_eq!(2, ok.tokens().len());
    assert_eq!(true, parse("+ >").is_err());
    assert_eq!("More ] found", parse("+ >").unwrap_err().error_message);
    assert_eq!("More [ found", parse("[ ]").unwrap_err().error_message);
}

#[test]
fn lib_parse_rejects_other_characters() {
    assert_eq!("Invalid token", parse("+/").unwrap_err().error_message);
}
