use rslox::lexer::scan_tokens;
use rslox::number::Number;
use rslox::token::{Token, TokenType};
use rslox::Diagnostic;

const SOURCE: &str = "\
// this is a comment
(( )){} // grouping stuff
!*+-/=<> <= == // operators";

#[test]
fn comment() {
    let tokens = vec![Token {
        token_type: TokenType::Eof,
        line: 1,
    }];
    assert_eq!(scan_tokens(SOURCE.lines().nth(0).unwrap()), Ok(tokens))
}

#[test]
fn delimiters() {
    let tokens = vec![
        Token {
            token_type: TokenType::LeftParen,
            line: 1,
        },
        Token {
            token_type: TokenType::LeftParen,
            line: 1,
        },
        Token {
            token_type: TokenType::RightParen,
            line: 1,
        },
        Token {
            token_type: TokenType::RightParen,
            line: 1,
        },
        Token {
            token_type: TokenType::LeftBrace,
            line: 1,
        },
        Token {
            token_type: TokenType::RightBrace,
            line: 1,
        },
        Token {
            token_type: TokenType::Eof,
            line: 1,
        },
    ];
    assert_eq!(scan_tokens(SOURCE.lines().nth(1).unwrap()), Ok(tokens))
}

#[test]
fn operators() {
    let tokens = vec![
        Token {
            token_type: TokenType::Bang,
            line: 1,
        },
        Token {
            token_type: TokenType::Star,
            line: 1,
        },
        Token {
            token_type: TokenType::Plus,
            line: 1,
        },
        Token {
            token_type: TokenType::Minus,
            line: 1,
        },
        Token {
            token_type: TokenType::Slash,
            line: 1,
        },
        Token {
            token_type: TokenType::Equal,
            line: 1,
        },
        Token {
            token_type: TokenType::Less,
            line: 1,
        },
        Token {
            token_type: TokenType::Greater,
            line: 1,
        },
        Token {
            token_type: TokenType::LessEqual,
            line: 1,
        },
        Token {
            token_type: TokenType::EqualEqual,
            line: 1,
        },
        Token {
            token_type: TokenType::Eof,
            line: 1,
        },
    ];
    assert_eq!(scan_tokens(SOURCE.lines().nth(2).unwrap()), Ok(tokens))
}

#[test]
fn basic() {
    let tokens = vec![
        Token {
            token_type: TokenType::LeftParen,
            line: 2,
        },
        Token {
            token_type: TokenType::LeftParen,
            line: 2,
        },
        Token {
            token_type: TokenType::RightParen,
            line: 2,
        },
        Token {
            token_type: TokenType::RightParen,
            line: 2,
        },
        Token {
            token_type: TokenType::LeftBrace,
            line: 2,
        },
        Token {
            token_type: TokenType::RightBrace,
            line: 2,
        },
        Token {
            token_type: TokenType::Bang,
            line: 3,
        },
        Token {
            token_type: TokenType::Star,
            line: 3,
        },
        Token {
            token_type: TokenType::Plus,
            line: 3,
        },
        Token {
            token_type: TokenType::Minus,
            line: 3,
        },
        Token {
            token_type: TokenType::Slash,
            line: 3,
        },
        Token {
            token_type: TokenType::Equal,
            line: 3,
        },
        Token {
            token_type: TokenType::Less,
            line: 3,
        },
        Token {
            token_type: TokenType::Greater,
            line: 3,
        },
        Token {
            token_type: TokenType::LessEqual,
            line: 3,
        },
        Token {
            token_type: TokenType::EqualEqual,
            line: 3,
        },
        Token {
            token_type: TokenType::Eof,
            line: 3,
        },
    ];
    assert_eq!(scan_tokens(SOURCE), Ok(tokens))
}

#[test]
fn unexpected_character() {
    let source = "\
// the next line contains an error
!=/$";
    let error = Diagnostic::LoxError {
        line: 2,
        message: String::from("Unexpected character: '$'"),
    };
    assert_eq!(scan_tokens(source), Err(error));
}

#[test]
fn lexer_string() {
    let source = "\
// this is a comment
\"Hello world!\" // this is a string literal";
    let tokens = vec![
        Token {
            token_type: TokenType::String(String::from("Hello world!")),
            line: 2,
        },
        Token {
            token_type: TokenType::Eof,
            line: 2,
        },
    ];
    assert_eq!(scan_tokens(source), Ok(tokens));
}

#[test]
fn unterminated_string() {
    let source = "\
// this is a comment
\"Hello world! // this is a string literal";
    let error = Diagnostic::LoxError {
        line: 2,
        message: String::from(
            "Unterminated string literal: \"Hello world! // this is a string literal\"",
        ),
    };
    assert_eq!(scan_tokens(source), Err(error));
}

#[test]
fn lexer_number() {
    let source = "\
// this is a comment
1234 12.34 // this is a number literal";
    let source_digit = "0";
    let source_newline = "\
123
456
678";
    let tokens = vec![
        Token {
            token_type: TokenType::Number(Number::ratio(1234, 1)),
            line: 2,
        },
        Token {
            token_type: TokenType::Number(Number::ratio(1234, 100)),
            line: 2,
        },
        Token {
            token_type: TokenType::Eof,
            line: 2,
        },
    ];
    let tokens_digit = vec![
        Token {
            token_type: TokenType::Number(Number::ratio(0, 1)),
            line: 1,
        },
        Token {
            token_type: TokenType::Eof,
            line: 1,
        },
    ];
    let tokens_newline = vec![
        Token {
            token_type: TokenType::Number(Number::ratio(123, 1)),
            line: 1,
        },
        Token {
            token_type: TokenType::Number(Number::ratio(456, 1)),
            line: 2,
        },
        Token {
            token_type: TokenType::Number(Number::ratio(678, 1)),
            line: 3,
        },
        Token {
            token_type: TokenType::Eof,
            line: 3,
        },
    ];
    assert_eq!(scan_tokens(source), Ok(tokens));
    assert_eq!(scan_tokens(source_digit), Ok(tokens_digit));
    assert_eq!(scan_tokens(source_newline), Ok(tokens_newline));
}

#[test]
fn invalid_number() {
    let source_unexpected_char = "\
// this is a comment
12$34 // this is an invalid number literal";
    let source_leading_dot = "\
// this is a comment
.123 // this is a number literal";
    let source_trailing_dot = "\
// this is a comment
123. // this is a number literal";
    let source_dots = "\
1.2.3 // this is a number literal
1 // this is line 2";
    let error_unexpected_char = Diagnostic::LoxError {
        line: 2,
        message: String::from("Unexpected character: '$'"),
    };
    let tokens_leading_dot = vec![
        Token {
            token_type: TokenType::Dot,
            line: 2,
        },
        Token {
            token_type: TokenType::Number(Number::ratio(123, 1)),
            line: 2,
        },
        Token {
            token_type: TokenType::Eof,
            line: 2,
        },
    ];
    let tokens_trailing_dot = vec![
        Token {
            token_type: TokenType::Number(Number::ratio(123, 1)),
            line: 2,
        },
        Token {
            token_type: TokenType::Dot,
            line: 2,
        },
        Token {
            token_type: TokenType::Eof,
            line: 2,
        },
    ];
    let tokens_dots = vec![
        Token {
            token_type: TokenType::Number(Number::ratio(12, 10)),
            line: 1,
        },
        Token {
            token_type: TokenType::Dot,
            line: 1,
        },
        Token {
            token_type: TokenType::Number(Number::ratio(3, 1)),
            line: 1,
        },
        Token {
            token_type: TokenType::Number(Number::ratio(1, 1)),
            line: 2,
        },
        Token {
            token_type: TokenType::Eof,
            line: 2,
        },
    ];

    assert_eq!(
        scan_tokens(source_unexpected_char),
        Err(error_unexpected_char)
    );
    assert_eq!(scan_tokens(source_leading_dot), Ok(tokens_leading_dot));
    assert_eq!(scan_tokens(source_trailing_dot), Ok(tokens_trailing_dot));
    assert_eq!(scan_tokens(source_dots), Ok(tokens_dots));
}

#[test]
fn keyword() {
    let source = "\
// this is a comment
and class else false for fun if nil or print return super this true var while";
    let source_newline = "\
and // this is a comment
class
else
false
for
fun
if
nil
or
print
return
super
this
true
var
while";
    let tokens = vec![
        Token {
            token_type: TokenType::And,
            line: 2,
        },
        Token {
            token_type: TokenType::Class,
            line: 2,
        },
        Token {
            token_type: TokenType::Else,
            line: 2,
        },
        Token {
            token_type: TokenType::False,
            line: 2,
        },
        Token {
            token_type: TokenType::For,
            line: 2,
        },
        Token {
            token_type: TokenType::Fun,
            line: 2,
        },
        Token {
            token_type: TokenType::If,
            line: 2,
        },
        Token {
            token_type: TokenType::Nil,
            line: 2,
        },
        Token {
            token_type: TokenType::Or,
            line: 2,
        },
        Token {
            token_type: TokenType::Print,
            line: 2,
        },
        Token {
            token_type: TokenType::Return,
            line: 2,
        },
        Token {
            token_type: TokenType::Super,
            line: 2,
        },
        Token {
            token_type: TokenType::This,
            line: 2,
        },
        Token {
            token_type: TokenType::True,
            line: 2,
        },
        Token {
            token_type: TokenType::Var,
            line: 2,
        },
        Token {
            token_type: TokenType::While,
            line: 2,
        },
        Token {
            token_type: TokenType::Eof,
            line: 2,
        },
    ];
    let tokens_newline = vec![
        Token {
            token_type: TokenType::And,
            line: 1,
        },
        Token {
            token_type: TokenType::Class,
            line: 2,
        },
        Token {
            token_type: TokenType::Else,
            line: 3,
        },
        Token {
            token_type: TokenType::False,
            line: 4,
        },
        Token {
            token_type: TokenType::For,
            line: 5,
        },
        Token {
            token_type: TokenType::Fun,
            line: 6,
        },
        Token {
            token_type: TokenType::If,
            line: 7,
        },
        Token {
            token_type: TokenType::Nil,
            line: 8,
        },
        Token {
            token_type: TokenType::Or,
            line: 9,
        },
        Token {
            token_type: TokenType::Print,
            line: 10,
        },
        Token {
            token_type: TokenType::Return,
            line: 11,
        },
        Token {
            token_type: TokenType::Super,
            line: 12,
        },
        Token {
            token_type: TokenType::This,
            line: 13,
        },
        Token {
            token_type: TokenType::True,
            line: 14,
        },
        Token {
            token_type: TokenType::Var,
            line: 15,
        },
        Token {
            token_type: TokenType::While,
            line: 16,
        },
        Token {
            token_type: TokenType::Eof,
            line: 16,
        },
    ];
    assert_eq!(scan_tokens(source), Ok(tokens));
    assert_eq!(scan_tokens(source_newline), Ok(tokens_newline));
    assert_eq!(source_newline.lines().count(), 16);
}

#[test]
fn identifier() {
    let source = "\
foo bar
foobar";
    let source_keywords = "\
printnil
print nil";
    let tokens = vec![
        Token {
            token_type: TokenType::Identifier(String::from("foo")),
            line: 1,
        },
        Token {
            token_type: TokenType::Identifier(String::from("bar")),
            line: 1,
        },
        Token {
            token_type: TokenType::Identifier(String::from("foobar")),
            line: 2,
        },
        Token {
            token_type: TokenType::Eof,
            line: 2,
        },
    ];
    let tokens_keywords = vec![
        Token {
            token_type: TokenType::Identifier(String::from("printnil")),
            line: 1,
        },
        Token {
            token_type: TokenType::Print,
            line: 2,
        },
        Token {
            token_type: TokenType::Nil,
            line: 2,
        },
        Token {
            token_type: TokenType::Eof,
            line: 2,
        },
    ];
    assert_eq!(scan_tokens(source), Ok(tokens));
    assert_eq!(scan_tokens(source_keywords), Ok(tokens_keywords));
}
