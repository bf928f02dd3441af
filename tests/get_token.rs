use script_lexer::{get_token, Token};

#[test]
fn test_file_end() {
    let source = b"  ";
    let result = get_token(source);
    assert!(result.is_ok());
    assert_eq!(Token::Eof, result.unwrap().1);
}

#[test]
fn test_parse_keyword() {
    let source = b" if else if else for while";

    let mut result = get_token(source);
    assert!(result.is_ok());
    let (remaining, token) = result.unwrap();
    assert_eq!(Token::If, token);

    result = get_token(remaining);
    assert!(result.is_ok());
    let (remaining, token) = result.unwrap();
    assert_eq!(Token::ElseIf, token);

    result = get_token(remaining);
    assert!(result.is_ok());
    let (remaining, token) = result.unwrap();
    assert_eq!(Token::Else, token);

    result = get_token(remaining);
    assert!(result.is_ok());
    let (remaining, token) = result.unwrap();
    assert_eq!(Token::For, token);

    result = get_token(remaining);
    assert!(result.is_ok());
    let (_, token) = result.unwrap();
    assert_eq!(Token::While, token);
}

#[test]
fn test_parse_delimiter() {
    let source = b" () [] {} ";

    let mut result = get_token(source);
    assert!(result.is_ok());
    let (remaining, token) = result.unwrap();
    assert_eq!(Token::OpenParen, token);

    result = get_token(remaining);
    assert!(result.is_ok());
    let (remaining, token) = result.unwrap();
    assert_eq!(Token::CloseParen, token);

    result = get_token(remaining);
    assert!(result.is_ok());
    let (remaining, token) = result.unwrap();
    assert_eq!(Token::OpenBracket, token);

    result = get_token(remaining);
    assert!(result.is_ok());
    let (remaining, token) = result.unwrap();
    assert_eq!(Token::CloseIndex, token);

    result = get_token(remaining);
    assert!(result.is_ok());
    let (remaining, token) = result.unwrap();
    assert_eq!(Token::OpenBrace, token);

    result = get_token(remaining);
    assert!(result.is_ok());
    let (_, token) = result.unwrap();
    assert_eq!(Token::CloseBrace, token);
}

#[test]
fn test_parse_ident() {
    let source = b" name num_rows_10 ";
    let result = get_token(source);
    assert!(result.is_ok());
    let (remaining, token) = result.unwrap();
    assert_eq!(Token::Ident("name".to_owned()), token);

    let result = get_token(remaining);
    assert!(result.is_ok());
    let (_, token) = result.unwrap();
    assert_eq!(Token::Ident("num_rows_10".to_owned()), token);
}

#[test]
fn test_parse_arithmetic_operator() {
    let source = b" + - * / %";

    let result = get_token(source);
    assert!(result.is_ok());
    let (remaining, token) = result.unwrap();
    assert_eq!(Token::Plus, token);

    let result = get_token(remaining);
    assert!(result.is_ok());
    let (remaining, token) = result.unwrap();
    assert_eq!(Token::Minus, token);

    let result = get_token(remaining);
    assert!(result.is_ok());
    let (remaining, token) = result.unwrap();
    assert_eq!(Token::Star, token);

    let result = get_token(remaining);
    assert!(result.is_ok());
    let (remaining, token) = result.unwrap();
    assert_eq!(Token::Slash, token);

    let result = get_token(remaining);
    assert!(result.is_ok());
    let (_, token) = result.unwrap();
    assert_eq!(Token::Percent, token);
}

#[test]
fn test_parse_string() {
    let source = b" \"Hello friend\"";
    let result = get_token(source);
    assert!(result.is_ok());
    let (_, token) = result.unwrap();
    assert_eq!(Token::String("Hello friend".to_owned()), token);
}

#[test]
fn test_parse_int() {
    let source = b" 457";
    let result = get_token(source);
    assert!(result.is_ok());
    assert_eq!(Token::Integer(457), result.unwrap().1);
}

#[test]
fn test_parse_assign_operator() {
    let source = b" := += -= *= /=";

    let result = get_token(source);
    assert!(result.is_ok());
    let (remaining, token) = result.unwrap();
    assert_eq!(Token::Assign, token);

    let result = get_token(remaining);
    assert!(result.is_ok());
    let (remaining, token) = result.unwrap();
    assert_eq!(Token::AddAssign, token);

    let result = get_token(remaining);
    assert!(result.is_ok());
    let (remaining, token) = result.unwrap();
    assert_eq!(Token::SubAssign, token);

    let result = get_token(remaining);
    assert!(result.is_ok());
    let (remaining, token) = result.unwrap();
    assert_eq!(Token::MultAssign, token);

    let result = get_token(remaining);
    assert!(result.is_ok());
    let (_, token) = result.unwrap();
    assert_eq!(Token::DivAssign, token);
}

#[test]
fn test_parse_comparison_operator() {
    let source = b" < > <= >= == != ";

    let result = get_token(source);
    assert!(result.is_ok());
    let (remaining, token) = result.unwrap();
    assert_eq!(Token::Lesser, token);

    let result = get_token(remaining);
    assert!(result.is_ok());
    let (remaining, token) = result.unwrap();
    assert_eq!(Token::Greater, token);

    let result = get_token(remaining);
    assert!(result.is_ok());
    let (remaining, token) = result.unwrap();
    assert_eq!(Token::LesserEqual, token);

    let result = get_token(remaining);
    assert!(result.is_ok());
    let (remaining, token) = result.unwrap();
    assert_eq!(Token::GreaterEqual, token);

    let result = get_token(remaining);
    assert!(result.is_ok());
    let (remaining, token) = result.unwrap();
    assert_eq!(Token::Equal, token);

    let result = get_token(remaining);
    assert!(result.is_ok());
    let (_, token) = result.unwrap();
    assert_eq!(Token::NotEqual, token);
}

#[test]
fn test_parse_comment() {
    let source = b" // hello there!!\n";
    let result = get_token(source);
    assert!(result.is_ok());
    assert_eq!(Token::Comment, result.unwrap().1);
}

#[test]
fn every_step_consumes_input() {
    let mut rest: &[u8] = b" x := \"a b\" // c\n{ 42 } @ <= while";
    loop {
        let before = rest.len();
        let (after, token) = get_token(rest).unwrap();
        if token == Token::Eof {
            assert!(after.is_empty());
            break;
        }
        assert!(after.len() < before);
        rest = after;
    }
}

#[test]
fn eof_consumes_trailing_whitespace() {
    let (rest, token) = get_token(b" \t\r\n").unwrap();
    assert_eq!(Token::Eof, token);
    assert!(rest.is_empty());
}
