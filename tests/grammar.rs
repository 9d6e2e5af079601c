use rslox::expression::{Expr, Variable};
use rslox::lexer::scan_tokens;
use rslox::number::Number;
use rslox::token::{Token, TokenType};
use rslox::Diagnostic;

fn kinds(source: &str) -> Result<Vec<TokenType>, Diagnostic> {
    scan_tokens(source).map(|ts| ts.into_iter().map(|t: Token| t.token_type).collect())
}

#[test]
fn scanner_string_literal() {
    assert_eq!(
        kinds("\"Hello World\""),
        Ok(vec![TokenType::String("Hello World".to_string()), TokenType::Eof])
    );
    // Without quotes the text is not a string literal.
    assert_eq!(
        kinds("Hello World"),
        Ok(vec![
            TokenType::Identifier("Hello".to_string()),
            TokenType::Identifier("World".to_string()),
            TokenType::Eof
        ])
    );
    assert!(kinds("Hello World\"").is_err());
    assert!(kinds("\"Hello World").is_err());
}

#[test]
fn scanner_number_literal() {
    assert_eq!(
        kinds("1.2345"),
        Ok(vec![TokenType::Number(Number::ratio(12345, 10000)), TokenType::Eof])
    );
    assert_eq!(
        kinds("12345"),
        Ok(vec![TokenType::Number(Number::ratio(12345, 1)), TokenType::Eof])
    );
    // Neither of these is one number literal.
    assert_eq!(
        kinds("12345asdf"),
        Ok(vec![
            TokenType::Number(Number::ratio(12345, 1)),
            TokenType::Identifier("asdf".to_string()),
            TokenType::Eof
        ])
    );
    assert_eq!(
        kinds("123,45"),
        Ok(vec![
            TokenType::Number(Number::ratio(123, 1)),
            TokenType::Comma,
            TokenType::Number(Number::ratio(45, 1)),
            TokenType::Eof
        ])
    );
}

#[test]
fn variable() {
    let v = Variable::new("answer".to_string());
    assert_eq!(v.name, "answer");
    // Variables have no evaluation rule yet.
    assert!(Expr::Variable(v).eval().is_err());
}
