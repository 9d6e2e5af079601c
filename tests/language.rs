use rslox::expression::{
    Binary, BinaryOp, Expr, Literal, LiteralValue, LoxValue, Unary, UnaryOp,
};
use rslox::lexer::scan_tokens;
use rslox::number::Number;
use rslox::parser::Parser;
use rslox::statement::Stmt;
use rslox::token::{Token, TokenType};
use rslox::{run, Diagnostic};

fn kinds(source: &str) -> Vec<TokenType> {
    scan_tokens(source)
        .unwrap()
        .into_iter()
        .map(|t: Token| t.token_type)
        .collect()
}

fn output(source: &str) -> Result<Vec<String>, Diagnostic> {
    let mut out = Vec::new();
    run(source, &mut out).map(|()| out)
}

fn num(n: i64) -> Expr {
    Expr::Literal(Literal::new(LiteralValue::Number(Number::ratio(n, 1))))
}

fn message(d: Diagnostic) -> String {
    match d {
        Diagnostic::LoxError { message, .. } => message,
        Diagnostic::ParseError { message, .. } => message,
    }
}

#[test]
fn scan_always_ends_with_one_eof() {
    for source in ["", "print 1;", "// only a comment", "\n\n", "a.b(c)"] {
        let tokens = scan_tokens(source).unwrap();
        assert!(!tokens.is_empty());
        assert_eq!(tokens.last().unwrap().token_type, TokenType::Eof);
        let eofs = tokens.iter().filter(|t| t.token_type == TokenType::Eof).count();
        assert_eq!(eofs, 1);
    }
}

#[test]
fn lines_count_newlines() {
    let tokens = scan_tokens("a\n\nb // c\n\"d\"\n").unwrap();
    let lines: Vec<usize> = tokens.iter().map(|t| t.line).collect();
    assert_eq!(lines, vec![1, 3, 4, 5]);
}

#[test]
fn trailing_and_leading_dots() {
    assert_eq!(
        kinds("123."),
        vec![TokenType::Number(Number::ratio(123, 1)), TokenType::Dot, TokenType::Eof]
    );
    assert_eq!(
        kinds(".123"),
        vec![TokenType::Dot, TokenType::Number(Number::ratio(123, 1)), TokenType::Eof]
    );
    assert_eq!(
        kinds("1.2.3"),
        vec![
            TokenType::Number(Number::ratio(12, 10)),
            TokenType::Dot,
            TokenType::Number(Number::ratio(3, 1)),
            TokenType::Eof
        ]
    );
}

#[test]
fn keywords_need_whole_words() {
    assert_eq!(kinds("print"), vec![TokenType::Print, TokenType::Eof]);
    assert_eq!(
        kinds("printx"),
        vec![TokenType::Identifier("printx".to_string()), TokenType::Eof]
    );
    assert_eq!(
        kinds("printnil"),
        vec![TokenType::Identifier("printnil".to_string()), TokenType::Eof]
    );
}

#[test]
fn identifiers_may_start_upper_case_or_underscore() {
    assert_eq!(
        kinds("Foo _bar"),
        vec![
            TokenType::Identifier("Foo".to_string()),
            TokenType::Identifier("_bar".to_string()),
            TokenType::Eof
        ]
    );
}

#[test]
fn unterminated_string_cites_its_line() {
    assert_eq!(
        scan_tokens("\"abc"),
        Err(Diagnostic::LoxError {
            line: 1,
            message: "Unterminated string literal: \"abc\"".to_string()
        })
    );
    assert_eq!(
        scan_tokens("1\n\"ab\ncd\""),
        Err(Diagnostic::LoxError {
            line: 2,
            message: "Unterminated string literal: \"ab\"".to_string()
        })
    );
}

#[test]
fn long_literals_round_or_become_infinite() {
    assert_eq!(
        kinds("123456789012345678901234567890"),
        vec![TokenType::Number(Number::ratio(1, 0)), TokenType::Eof]
    );
    assert_eq!(
        kinds("9223372036854775808"),
        vec![TokenType::Number(Number::ratio(1, 0)), TokenType::Eof]
    );
    assert_eq!(
        kinds("9223372036854775807"),
        vec![TokenType::Number(Number::ratio(i64::MAX, 1)), TokenType::Eof]
    );
    // Eighteen digits after the point are kept, the nineteenth rounds.
    assert_eq!(
        kinds("0.1234567890123456789"),
        vec![
            TokenType::Number(Number::ratio(123456789012345679, 1_000_000_000_000_000_000)),
            TokenType::Eof
        ]
    );
    // Fewer digits are kept where the whole part is large.
    assert_eq!(
        kinds("922337203685477580.75"),
        vec![TokenType::Number(Number::ratio(922337203685477581, 1)), TokenType::Eof]
    );
}

#[test]
fn subtraction_is_left_associative() {
    assert_eq!(output("print 1 - 2 - 3;"), Ok(vec!["-4".to_string()]));
}

#[test]
fn parser_folds_to_the_left() {
    let tokens = scan_tokens("1 - 2 - 3;").unwrap();
    let stmts = Parser::new(&tokens).parse().unwrap();
    let expected = Stmt::Expression(Expr::Binary(Binary::new(
        Expr::Binary(Binary::new(num(1), num(2), BinaryOp::Sub, 1)),
        num(3),
        BinaryOp::Sub,
        1,
    )));
    assert_eq!(stmts, vec![expected]);
}

#[test]
fn precedence() {
    assert_eq!(output("print 2 + 3 * 4;"), Ok(vec!["14".to_string()]));
    assert_eq!(output("print (2 + 3) * 4;"), Ok(vec!["20".to_string()]));
    assert_eq!(output("print -2 * 3 < 5 == true;"), Ok(vec!["true".to_string()]));
}

#[test]
fn type_errors() {
    let err = output("1 + nil;").unwrap_err();
    let text = message(err.clone());
    assert!(text.contains("Number") && text.contains("Nil"));
    assert_eq!(
        err,
        Diagnostic::LoxError {
            line: 1,
            message: "value [1] of type Number cannot be added to value [nil] of type Nil"
                .to_string()
        }
    );
    assert!(output("\"a\" + 1;").is_err());
    assert_eq!(
        output("print -nil;"),
        Err(Diagnostic::LoxError {
            line: 1,
            message: "value [nil] of type Nil cannot be negated".to_string()
        })
    );
}

#[test]
fn equality_with_nil() {
    assert_eq!(output("print nil == nil;"), Ok(vec!["true".to_string()]));
    assert_eq!(output("print nil != nil;"), Ok(vec!["false".to_string()]));
    assert!(output("nil == 0;").is_err());
    assert!(output("true != nil;").is_err());
}

#[test]
fn strings_concatenate_and_compare() {
    assert_eq!(
        output("print \"foo\" + \"bar\"; print \"a\" == \"a\";"),
        Ok(vec!["foobar".to_string(), "true".to_string()])
    );
}

#[test]
fn truthiness() {
    assert_eq!(
        output("print !nil; print !0; print !\"\"; print !false;"),
        Ok(vec![
            "true".to_string(),
            "false".to_string(),
            "false".to_string(),
            "true".to_string()
        ])
    );
}

#[test]
fn division_follows_the_rules_of_infinity() {
    assert_eq!(
        output("print 1 / 0; print -1 / 0; print 0 / 0; print 1 / 4; print 1 / 3;"),
        Ok(vec![
            "inf".to_string(),
            "-inf".to_string(),
            "NaN".to_string(),
            "0.25".to_string(),
            "0.333333333333333333".to_string()
        ])
    );
    assert_eq!(output("print 0 / 0 == 0 / 0;"), Ok(vec!["false".to_string()]));
}

#[test]
fn decimals_are_exact() {
    assert_eq!(output("print 0.1 + 0.2;"), Ok(vec!["0.3".to_string()]));
    assert_eq!(output("print 12.5 * 2;"), Ok(vec!["25".to_string()]));
    assert_eq!(output("print 1.5 < 1.25;"), Ok(vec!["false".to_string()]));
}

#[test]
fn output_stops_at_the_first_error() {
    let mut out = Vec::new();
    let r = run("print 1;\nprint 1 + nil;\nprint 2;", &mut out);
    assert_eq!(out, vec!["1".to_string()]);
    assert!(matches!(r, Err(Diagnostic::LoxError { line: 2, .. })));
}

#[test]
fn parse_errors() {
    assert_eq!(
        output("print (1;"),
        Err(Diagnostic::ParseError {
            line: 1,
            message: "Expect ')' after expression.".to_string()
        })
    );
    assert_eq!(
        output("print 1"),
        Err(Diagnostic::ParseError {
            line: 1,
            message: "Expect ';' after value.".to_string()
        })
    );
    assert_eq!(
        output("\n+;"),
        Err(Diagnostic::ParseError {
            line: 2,
            message: "Expect expression.".to_string()
        })
    );
}

#[test]
fn values_render() {
    assert_eq!(LoxValue::Nil.to_text(), "nil");
    assert_eq!(LoxValue::Bool(true).to_text(), "true");
    assert_eq!(LoxValue::String("hi".to_string()).to_text(), "hi");
    assert_eq!(LoxValue::Number(Number::ratio(-7, 2)).to_text(), "-3.5");
    assert_eq!(LoxValue::Number(Number::ratio(6, -3)).to_text(), "-2");
    assert!(LoxValue::Number(Number::ratio(0, 1)).is_truthy());
    assert_eq!(LoxValue::Number(Number::ratio(1, 1)).type_str(), "Number");
}

#[test]
fn unary_nesting() {
    let e = Expr::Unary(Unary::new(
        Expr::Unary(Unary::new(num(5), UnaryOp::Neg, 1)),
        UnaryOp::Neg,
        1,
    ));
    assert_eq!(e.eval(), Ok(LoxValue::Number(Number::ratio(5, 1))));
    assert_eq!(output("print --5;"), Ok(vec!["5".to_string()]));
}

#[test]
fn arithmetic_never_fails_on_numbers() {
    assert_eq!(output("print 9000000000000000000 * 10;"), Ok(vec!["inf".to_string()]));
    assert_eq!(output("print -9000000000000000000 * 10;"), Ok(vec!["-inf".to_string()]));
    assert_eq!(output("print 9223372036854775807 + 1;"), Ok(vec!["inf".to_string()]));
    assert_eq!(output("print 9223372036854775807 / 0.5;"), Ok(vec!["inf".to_string()]));
    assert_eq!(
        output("print 0.1 + 0.1 + 0.1 + 0.1 + 0.1 + 0.1 + 0.1 + 0.1 + 0.1 + 0.1 + 0.1 + 0.1 + 0.1 + 0.1 + 0.1 + 0.1 + 0.1 + 0.1 + 0.1;"),
        Ok(vec!["1.9".to_string()])
    );
    assert_eq!(
        output("print 1 / 3 / 3 / 3 / 3 / 3 / 3 / 3 / 3 / 3 / 3 / 3 / 3 / 3 / 3 / 3 / 3 / 3 / 3 / 3 / 3 / 3 / 3 / 3 / 3 / 3 / 3 / 3 / 3 / 3 / 3 / 3 / 3 / 3 / 3 / 3 / 3 / 3 / 3 / 3 / 3;"),
        Ok(vec!["0".to_string()])
    );
    assert_eq!(output("print 2 / 3 * 3;"), Ok(vec!["2".to_string()]));
}

#[test]
fn rescanning_token_text_gives_the_same_kinds() {
    let source = "print (1.50 + x) != \"s t\";\n// comment\nvar y = 123. >= !z;";
    let tokens = kinds(source);
    let text: String = tokens
        .iter()
        .map(|k| format!("{} ", k.to_text()))
        .collect();
    let again = kinds(&text);
    assert_eq!(again.len(), tokens.len());
    for (a, b) in tokens.iter().zip(again.iter()) {
        match (a, b) {
            (TokenType::Number(x), TokenType::Number(y)) => {
                assert_eq!(x.num as i128 * y.den as i128, y.num as i128 * x.den as i128)
            }
            _ => assert_eq!(a, b),
        }
    }
    assert_eq!(TokenType::Number(Number::ratio(150, 100)).to_text(), "1.5");
    assert_eq!(TokenType::String("s t".to_string()).to_text(), "\"s t\"");
    assert_eq!(TokenType::BangEqual.to_text(), "!=");
    assert_eq!(TokenType::Eof.to_text(), "");
}

#[test]
fn number_arithmetic_is_exact() {
    let a = Number::ratio(1, 10);
    let b = Number::ratio(2, 10);
    let s = a.add(&b);
    assert_eq!((s.num, s.den), (30, 100));
    assert!(s.same_as(&Number::ratio(3, 10)));
    assert_eq!(a.sub(&b).to_text(), "-0.1");
    assert_eq!(a.mul(&b).to_text(), "0.02");
    assert_eq!(a.div(&b).to_text(), "0.5");
    assert_eq!(a.neg().to_text(), "-0.1");
    assert!(a.lt(&b) && a.le(&a) && !b.lt(&a));
    assert_eq!(Number::ratio(1, 0).to_text(), "inf");
    assert!(Number::ratio(0, 0).nan_check());
    assert_eq!(Number::ratio(i64::MAX, 1).add(&Number::ratio(1, 1)).to_text(), "inf");
    assert_eq!(Number::ratio(i64::MIN, 1).neg().to_text(), "inf");
    // Rounded to eighteen places where the exact parts do not fit.
    let tiny = Number::ratio(7, 3).mul(&Number::ratio(1, 1_000_000_000_000_000_000));
    assert_eq!((tiny.num, tiny.den), (2, 1_000_000_000_000_000_000));
    // Reduced by the common divisor where the parts would not fit.
    let third = Number::ratio(1, 1_000_000_000_000_000_000)
        .mul(&Number::ratio(1_000_000_000_000_000_000, 3));
    assert_eq!((third.num, third.den), (1, 3));
}

#[test]
fn statements_parse() {
    let tokens = scan_tokens("print 1; 2;").unwrap();
    let stmts = Parser::new(&tokens).parse().unwrap();
    assert_eq!(stmts, vec![Stmt::Print(num(1)), Stmt::Expression(num(2))]);
    let mut out = Vec::new();
    stmts[0].execute(&mut out).unwrap();
    assert_eq!(out, vec!["1".to_string()]);
}

#[test]
fn diagnostics_report_their_line() {
    let d = Diagnostic::ParseError { line: 12, message: "Expect expression.".to_string() };
    assert_eq!(d.to_text(), "[line 12] Error: Expect expression.");
    let d = Diagnostic::LoxError { line: 3, message: "Unexpected character: '$'".to_string() };
    assert_eq!(d.to_text(), "[line 3] Error: Unexpected character: '$'");
}

#[test]
fn other_errors() {
    assert_eq!(
        output("1 + 2"),
        Err(Diagnostic::ParseError {
            line: 1,
            message: "Expect ';' after expression.".to_string()
        })
    );
    assert_eq!(
        output("\nprint x;"),
        Err(Diagnostic::LoxError {
            line: 2,
            message: "expression not supported".to_string()
        })
    );
    assert_eq!(
        output("print 1 < \"a\";"),
        Err(Diagnostic::LoxError {
            line: 1,
            message: "value [1] of type Number cannot be compared with value [a] of type String"
                .to_string()
        })
    );
}
