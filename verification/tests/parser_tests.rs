use brainfuck::analyzer::{flat_parse, parse, token_to_char, Position, Token, TokenType};

#[test]
fn analyzer_parse_should_success() {
    let actual = parse(">[[]<]").unwrap();

    assert_eq!(2, actual.parse_token_group.token_group.len());
    assert_eq!(
        TokenType::PointerIncrement,
        actual.parse_token_group.token_group[0].token_type
    );
    match &actual.parse_token_group.token_group[1].token_type {
        TokenType::SubGroup(tg) => {
            assert!(
                matches!(& tg.token_group[0].token_type, TokenType::SubGroup(x) if x.token_group.len() ==0)
            );
            assert_eq!(TokenType::PointerDecrement, tg.token_group[1].token_type);
        }
        _ => assert!(false),
    }
}

#[test]
fn parse_with_comment() {
    let line_comment = parse(">>//todo").unwrap();
    assert_eq!(3, line_comment.parse_token_group.token_group.len());
    match &line_comment.parse_token_group.token_group[2].token_type {
        TokenType::Comment(str) => {
            assert_eq!(str, "//todo");
        }
        _ => assert!(false),
    }

    let paragraph_commet_success = parse(">>/*todo*/").unwrap();
    assert_eq!(
        3,
        paragraph_commet_success.parse_token_group.token_group.len()
    );
    match &paragraph_commet_success.parse_token_group.token_group[2].token_type {
        TokenType::Comment(str) => {
            assert_eq!(str, "/*todo*/");
        }
        _ => assert!(false),
    }

    let paragraph_commet_error = parse(">>/*todo??");
    if let Err(parse_error) = paragraph_commet_error {
        assert_eq!(
            parse_error.error_message,
            "Paragraph comment missing end flag."
        );
    } else {
        assert!(false)
    }
}

#[test]
fn analyzer_parse_more_start_should_error() {
    assert_eq!(true, parse("[").is_err());
}

#[test]
fn analyzer_parse_more_stop_should_error() {
    assert_eq!(true, parse("]").is_err());
}

#[test]
fn parse_success() {
    assert_eq!(true, parse("[\r\n    >\r\n    >\r\n    ,\r\n][]").is_ok());
}

#[test]
fn parse_reports_invalid_character() {
    let err = parse(">>a").unwrap_err();
    assert_eq!(err.error_message, "Invalid token");
    assert_eq!(err.range.start, Position::new(0, 2));
    assert_eq!(err.range.end, Position::new(0, 2));
}

#[test]
fn parse_reports_stray_close_bracket() {
    let err = parse("][").unwrap_err();
    assert_eq!(err.error_message, "More ] found");
    assert_eq!(err.range.start, Position::new(0, 1));
    let err2 = parse("]").unwrap_err();
    assert_eq!(err2.error_message, "More ] found");
}

#[test]
fn parse_tracks_positions_across_lines() {
    let actual = parse(">\n+").unwrap();
    let tokens = &actual.parse_token_group.token_group;
    assert_eq!(tokens[0].range.start, Position::new(0, 0));
    assert_eq!(tokens[1].range.start, Position::new(1, 0));
    assert_eq!(actual.position, Position::new(1, 1));
}

#[test]
fn flat_parse_emits_brackets_as_tokens() {
    let actual = flat_parse(">[+]").unwrap();
    let tokens = &actual.parse_token_group.token_group;
    assert_eq!(4, tokens.len());
    assert_eq!(TokenType::PointerIncrement, tokens[0].token_type);
    assert_eq!(TokenType::LoopStart, tokens[1].token_type);
    assert_eq!(TokenType::Increment, tokens[2].token_type);
    assert_eq!(TokenType::LoopEnd, tokens[3].token_type);
    assert_eq!(tokens[1].range.start, Position::new(0, 1));
}

#[test]
fn flat_parse_keeps_comments() {
    let actual = flat_parse("+//note\n-").unwrap();
    let tokens = &actual.parse_token_group.token_group;
    assert_eq!(3, tokens.len());
    assert!(matches!(&tokens[1].token_type, TokenType::Comment(s) if s == "//note\n"));
}

#[test]
fn token_to_char_maps_lexemes() {
    let t = parse(">").unwrap();
    assert_eq!('>', token_to_char(&t.parse_token_group.token_group[0]));
    let f = flat_parse("[").unwrap();
    assert_eq!('[', token_to_char(&f.parse_token_group.token_group[0]));
    let c = parse("//x").unwrap();
    assert_eq!('?', token_to_char(&c.parse_token_group.token_group[0]));
}

#[test]
fn comment_range_spans_delimiters() {
    let actual = parse("/*ab*/").unwrap();
    let t: &Token = &actual.parse_token_group.token_group[0];
    assert_eq!(t.range.start, Position::new(0, 0));
    assert_eq!(t.range.end, Position::new(0, 6));
}
