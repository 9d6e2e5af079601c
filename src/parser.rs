//! The parser: from tokens to statement trees, one precedence level per rule,
//! each binary level folding to the left.
use vstd::prelude::*;

use crate::expression::{
    failure, literal_view, tree_of, Binary, BinaryOp, Expr, Grouping, Literal, LiteralValue, Tree,
    Unary, UnaryOp, ValueView, Variable,
};
use crate::lexer::views;
use crate::statement::{stmt_tree, stmt_trees, Stmt, StmtTree};
use crate::token::{KindView, Token, TokenKind, TokenType, TokenView};
use crate::Diagnostic;

verus! {

/// A binary precedence level, from the loosest to the tightest.
#[derive(Clone, Copy, PartialEq, Eq, Structural)]
pub enum Level {
    Equality,
    Comparison,
    Term,
    Factor,
}

/// What a rule gives at a position, as contracts see it: a tree and the
/// position after it, or the line and message of the first error.
pub type ParseView = Result<(Tree, int), (nat, Seq<char>)>;

/// What a statement rule gives at a position.
pub type StmtView = Result<(StmtTree, int), (nat, Seq<char>)>;

/// The kind of the token at `i`; past the end, the end of input.
pub open spec fn kind_at(ts: Seq<TokenView>, i: int) -> KindView {
    if 0 <= i < ts.len() {
        ts[i].0
    } else {
        TokenKind::Eof
    }
}

/// The line of the token at `i`; past the end, the line of the last token.
pub open spec fn line_at(ts: Seq<TokenView>, i: int) -> nat {
    if 0 <= i < ts.len() {
        ts[i].1
    } else if ts.len() > 0 {
        ts.last().1
    } else {
        1
    }
}

/// The operator that a token kind stands for at a level.
pub open spec fn operator_of(level: Level, k: KindView) -> Option<BinaryOp> {
    match (level, k) {
        (Level::Equality, TokenKind::BangEqual) => Some(BinaryOp::NotEqual),
        (Level::Equality, TokenKind::EqualEqual) => Some(BinaryOp::Equal),
        (Level::Comparison, TokenKind::Greater) => Some(BinaryOp::Greater),
        (Level::Comparison, TokenKind::GreaterEqual) => Some(BinaryOp::GreaterEqual),
        (Level::Comparison, TokenKind::Less) => Some(BinaryOp::Less),
        (Level::Comparison, TokenKind::LessEqual) => Some(BinaryOp::LessEqual),
        (Level::Term, TokenKind::Minus) => Some(BinaryOp::Sub),
        (Level::Term, TokenKind::Plus) => Some(BinaryOp::Add),
        (Level::Factor, TokenKind::Slash) => Some(BinaryOp::Div),
        (Level::Factor, TokenKind::Star) => Some(BinaryOp::Mul),
        _ => None,
    }
}

/// The next tighter binary level.
pub open spec fn tighter(level: Level) -> Level {
    match level {
        Level::Equality => Level::Comparison,
        Level::Comparison => Level::Term,
        _ => Level::Factor,
    }
}

pub open spec fn rank(level: Level) -> nat {
    match level {
        Level::Equality => 5,
        Level::Comparison => 4,
        Level::Term => 3,
        Level::Factor => 2,
    }
}

/// Whether a rule that began at `i` and ended at `j` read at least one token.
pub open spec fn advanced(i: int, j: int, n: int) -> bool {
    i < j <= n
}

pub open spec fn expect_expression() -> Seq<char> {
    "Expect expression."@
}

pub open spec fn expect_paren() -> Seq<char> {
    "Expect ')' after expression."@
}

pub open spec fn expect_value_end() -> Seq<char> {
    "Expect ';' after value."@
}

pub open spec fn expect_expression_end() -> Seq<char> {
    "Expect ';' after expression."@
}

/// expression := equality
pub open spec fn expression_at(ts: Seq<TokenView>, i: int) -> ParseView
    decreases ts.len() - i, 6nat,
{
    binary_at(ts, i, Level::Equality)
}

/// A binary level: an operand, then any number of operators of the level,
/// each with an operand, folded to the left.
pub open spec fn binary_at(ts: Seq<TokenView>, i: int, level: Level) -> ParseView
    decreases ts.len() - i, rank(level),
{
    let first = if level == Level::Factor {
        unary_at(ts, i)
    } else {
        binary_at(ts, i, tighter(level))
    };
    match first {
        Ok((l, j)) => if advanced(i, j, ts.len() as int) {
            binary_rest(ts, j, l, level)
        } else {
            Err((line_at(ts, i), expect_expression()))
        },
        Err(x) => Err(x),
    }
}

/// The rest of a binary level after the tree `acc`, from `j` on.
pub open spec fn binary_rest(ts: Seq<TokenView>, j: int, acc: Tree, level: Level) -> ParseView
    decreases ts.len() - j, rank(level),
{
    match operator_of(level, kind_at(ts, j)) {
        Some(op) => if 0 <= j < ts.len() {
            let right = if level == Level::Factor {
                unary_at(ts, j + 1)
            } else {
                binary_at(ts, j + 1, tighter(level))
            };
            match right {
                Ok((r, k)) => if advanced(j, k, ts.len() as int) {
                    binary_rest(
                        ts,
                        k,
                        Tree::Binary(op, Box::new(acc), Box::new(r), line_at(ts, j)),
                        level,
                    )
                } else {
                    Err((line_at(ts, j), expect_expression()))
                },
                Err(x) => Err(x),
            }
        } else {
            Ok((acc, j))
        },
        None => Ok((acc, j)),
    }
}

/// unary := ("!" | "-") unary | primary
pub open spec fn unary_at(ts: Seq<TokenView>, i: int) -> ParseView
    decreases ts.len() - i, 1nat,
{
    let op = match kind_at(ts, i) {
        TokenKind::Bang => Some(UnaryOp::Not),
        TokenKind::Minus => Some(UnaryOp::Neg),
        _ => None,
    };
    match op {
        Some(o) => if 0 <= i < ts.len() {
            match unary_at(ts, i + 1) {
                Ok((e, j)) => Ok((Tree::Unary(o, Box::new(e), line_at(ts, i)), j)),
                Err(x) => Err(x),
            }
        } else {
            Err((line_at(ts, i), expect_expression()))
        },
        None => primary_at(ts, i),
    }
}

/// primary := NUMBER | STRING | "true" | "false" | "nil" | IDENTIFIER
///          | "(" expression ")"
pub open spec fn primary_at(ts: Seq<TokenView>, i: int) -> ParseView
    decreases ts.len() - i, 0nat,
{
    if !(0 <= i < ts.len()) {
        Err((line_at(ts, i), expect_expression()))
    } else {
        match kind_at(ts, i) {
            TokenKind::Number(n) => Ok((Tree::Literal(ValueView::Number(n)), i + 1)),
            TokenKind::String(s) => Ok((Tree::Literal(ValueView::String(s)), i + 1)),
            TokenKind::True => Ok((Tree::Literal(ValueView::Bool(true)), i + 1)),
            TokenKind::False => Ok((Tree::Literal(ValueView::Bool(false)), i + 1)),
            TokenKind::Nil => Ok((Tree::Literal(ValueView::Nil), i + 1)),
            TokenKind::Identifier(s) => Ok((Tree::Variable(s, line_at(ts, i)), i + 1)),
            TokenKind::LeftParen => match expression_at(ts, i + 1) {
                Ok((e, j)) => if kind_at(ts, j) == TokenKind::<Seq<char>>::RightParen {
                    Ok((Tree::Grouping(Box::new(e)), j + 1))
                } else {
                    Err((line_at(ts, j), expect_paren()))
                },
                Err(x) => Err(x),
            },
            _ => Err((line_at(ts, i), expect_expression())),
        }
    }
}

/// statement := "print" expression ";" | expression ";"
pub open spec fn statement_at(ts: Seq<TokenView>, i: int) -> StmtView {
    if kind_at(ts, i) == TokenKind::<Seq<char>>::Print {
        match expression_at(ts, i + 1) {
            Ok((e, j)) => if kind_at(ts, j) == TokenKind::<Seq<char>>::Semicolon {
                Ok((StmtTree::Print(e), j + 1))
            } else {
                Err((line_at(ts, j), expect_value_end()))
            },
            Err(x) => Err(x),
        }
    } else {
        match expression_at(ts, i) {
            Ok((e, j)) => if kind_at(ts, j) == TokenKind::<Seq<char>>::Semicolon {
                Ok((StmtTree::Expression(e), j + 1))
            } else {
                Err((line_at(ts, j), expect_expression_end()))
            },
            Err(x) => Err(x),
        }
    }
}

/// program := statement* EOF
pub open spec fn program_at(ts: Seq<TokenView>, i: int) -> Result<Seq<StmtTree>, (nat, Seq<char>)>
    decreases ts.len() - i,
{
    if kind_at(ts, i) == TokenKind::<Seq<char>>::Eof {
        Ok(seq![])
    } else {
        match statement_at(ts, i) {
            Ok((st, j)) => if advanced(i, j, ts.len() as int) {
                match program_at(ts, j) {
                    Ok(rest) => Ok(seq![st] + rest),
                    Err(x) => Err(x),
                }
            } else {
                Err((line_at(ts, i), expect_expression()))
            },
            Err(x) => Err(x),
        }
    }
}

/// Whether an executable parse result `r`, begun at `i` in `n` tokens, is what
/// the rule gives.
pub open spec fn parsed(r: Result<(Expr, usize), Diagnostic>, rule: ParseView, i: int, n: int) -> bool {
    match r {
        Ok((e, j)) => rule == ParseView::Ok((tree_of(e), j as int)) && advanced(i, j as int, n),
        Err(d) => d is ParseError && rule == ParseView::Err(failure(d)),
    }
}

fn parse_error(line: usize, message: &str) -> (d: Diagnostic)
    ensures
        d is ParseError,
        failure(d) == (line as nat, message@),
{
    Diagnostic::ParseError { line, message: String::from_str(message) }
}

fn line_of(ts: &[Token], i: usize) -> (r: usize)
    ensures
        r == line_at(views(ts@), i as int),
{
    if i < ts.len() {
        ts[i].line
    } else if ts.len() > 0 {
        ts[ts.len() - 1].line
    } else {
        1
    }
}

/// Whether the token at `i` is the end of input (as it is past the last token).
fn is_eof(ts: &[Token], i: usize) -> (r: bool)
    ensures
        r == (kind_at(views(ts@), i as int) == TokenKind::<Seq<char>>::Eof),
{
    i >= ts.len() || matches!(ts[i].token_type, TokenType::Eof)
}

fn is_semicolon(ts: &[Token], i: usize) -> (r: bool)
    ensures
        r == (kind_at(views(ts@), i as int) == TokenKind::<Seq<char>>::Semicolon),
{
    i < ts.len() && matches!(ts[i].token_type, TokenType::Semicolon)
}

fn is_right_paren(ts: &[Token], i: usize) -> (r: bool)
    ensures
        r == (kind_at(views(ts@), i as int) == TokenKind::<Seq<char>>::RightParen),
{
    i < ts.len() && matches!(ts[i].token_type, TokenType::RightParen)
}

fn is_print(ts: &[Token], i: usize) -> (r: bool)
    ensures
        r == (kind_at(views(ts@), i as int) == TokenKind::<Seq<char>>::Print),
{
    i < ts.len() && matches!(ts[i].token_type, TokenType::Print)
}

fn operator(level: Level, k: &TokenType) -> (r: Option<BinaryOp>)
    ensures
        r == operator_of(level, k@),
{
    match (level, k) {
        (Level::Equality, TokenType::BangEqual) => Some(BinaryOp::NotEqual),
        (Level::Equality, TokenType::EqualEqual) => Some(BinaryOp::Equal),
        (Level::Comparison, TokenType::Greater) => Some(BinaryOp::Greater),
        (Level::Comparison, TokenType::GreaterEqual) => Some(BinaryOp::GreaterEqual),
        (Level::Comparison, TokenType::Less) => Some(BinaryOp::Less),
        (Level::Comparison, TokenType::LessEqual) => Some(BinaryOp::LessEqual),
        (Level::Term, TokenType::Minus) => Some(BinaryOp::Sub),
        (Level::Term, TokenType::Plus) => Some(BinaryOp::Add),
        (Level::Factor, TokenType::Slash) => Some(BinaryOp::Div),
        (Level::Factor, TokenType::Star) => Some(BinaryOp::Mul),
        _ => None,
    }
}

fn next_level(level: Level) -> (r: Level)
    ensures
        r == tighter(level),
{
    match level {
        Level::Equality => Level::Comparison,
        Level::Comparison => Level::Term,
        _ => Level::Factor,
    }
}

fn expression(ts: &[Token], i: usize) -> (r: Result<(Expr, usize), Diagnostic>)
    requires
        i <= ts.len(),
    ensures
        parsed(r, expression_at(views(ts@), i as int), i as int, ts.len() as int),
    decreases ts.len() - i, 6nat,
{
    binary(ts, i, Level::Equality)
}

fn binary(ts: &[Token], i: usize, level: Level) -> (r: Result<(Expr, usize), Diagnostic>)
    requires
        i <= ts.len(),
    ensures
        parsed(r, binary_at(views(ts@), i as int, level), i as int, ts.len() as int),
    decreases ts.len() - i, rank(level),
{
    let ghost v = views(ts@);
    let first = if level == Level::Factor {
        unary(ts, i)
    } else {
        binary(ts, i, next_level(level))
    };
    let (mut acc, mut j) = first?;
    while j < ts.len()
        invariant
            v == views(ts@),
            i < j <= ts.len(),
            binary_at(v, i as int, level) == binary_rest(v, j as int, tree_of(acc), level),
        ensures
            i < j <= ts.len(),
            binary_at(v, i as int, level) == binary_rest(v, j as int, tree_of(acc), level),
            binary_rest(v, j as int, tree_of(acc), level) == ParseView::Ok((tree_of(acc), j as int)),
        decreases ts.len() - j,
    {
        assert(v[j as int] == ts@[j as int]@);
        let op = match operator(level, &ts[j].token_type) {
            Some(op) => op,
            None => break,
        };
        let line = ts[j].line;
        let right = if level == Level::Factor {
            unary(ts, j + 1)
        } else {
            binary(ts, j + 1, next_level(level))
        };
        let (r, k) = right?;
        acc = Expr::Binary(Binary::new(acc, r, op, line));
        j = k;
    }
    Ok((acc, j))
}

fn unary(ts: &[Token], i: usize) -> (r: Result<(Expr, usize), Diagnostic>)
    requires
        i <= ts.len(),
    ensures
        parsed(r, unary_at(views(ts@), i as int), i as int, ts.len() as int),
    decreases ts.len() - i, 1nat,
{
    let op = if i < ts.len() {
        match ts[i].token_type {
            TokenType::Bang => Some(UnaryOp::Not),
            TokenType::Minus => Some(UnaryOp::Neg),
            _ => None,
        }
    } else {
        None
    };
    match op {
        Some(o) => {
            let (e, j) = unary(ts, i + 1)?;
            Ok((Expr::Unary(Unary::new(e, o, ts[i].line)), j))
        },
        None => primary(ts, i),
    }
}

fn primary(ts: &[Token], i: usize) -> (r: Result<(Expr, usize), Diagnostic>)
    requires
        i <= ts.len(),
    ensures
        parsed(r, primary_at(views(ts@), i as int), i as int, ts.len() as int),
    decreases ts.len() - i, 0nat,
{
    if i >= ts.len() {
        return Err(parse_error(line_of(ts, i), "Expect expression."));
    }
    let line = ts[i].line;
    match &ts[i].token_type {
        TokenType::Number(n) => Ok((Expr::Literal(Literal::new(LiteralValue::Number(*n))), i + 1)),
        TokenType::String(s) => Ok(
            (Expr::Literal(Literal::new(LiteralValue::String(s.clone()))), i + 1),
        ),
        TokenType::True => Ok((Expr::Literal(Literal::new(LiteralValue::Bool(true))), i + 1)),
        TokenType::False => Ok((Expr::Literal(Literal::new(LiteralValue::Bool(false))), i + 1)),
        TokenType::Nil => Ok((Expr::Literal(Literal::new(LiteralValue::Nil)), i + 1)),
        TokenType::Identifier(s) => Ok((Expr::Variable(Variable::at(s.clone(), line)), i + 1)),
        TokenType::LeftParen => {
            let (e, j) = expression(ts, i + 1)?;
            if is_right_paren(ts, j) {
                Ok((Expr::Grouping(Grouping { expression: Box::new(e) }), j + 1))
            } else {
                Err(parse_error(line_of(ts, j), "Expect ')' after expression."))
            }
        },
        _ => Err(parse_error(line, "Expect expression.")),
    }
}

fn statement(ts: &[Token], i: usize) -> (r: Result<(Stmt, usize), Diagnostic>)
    requires
        i <= ts.len(),
    ensures
        match r {
            Ok((st, j)) => statement_at(views(ts@), i as int) == StmtView::Ok(
                (stmt_tree(st), j as int),
            ) && advanced(i as int, j as int, ts.len() as int),
            Err(d) => d is ParseError && statement_at(views(ts@), i as int) == StmtView::Err(
                failure(d),
            ),
        },
{
    if is_print(ts, i) {
        let (e, j) = expression(ts, i + 1)?;
        if is_semicolon(ts, j) {
            Ok((Stmt::Print(e), j + 1))
        } else {
            Err(parse_error(line_of(ts, j), "Expect ';' after value."))
        }
    } else {
        let (e, j) = expression(ts, i)?;
        if is_semicolon(ts, j) {
            Ok((Stmt::Expression(e), j + 1))
        } else {
            Err(parse_error(line_of(ts, j), "Expect ';' after expression."))
        }
    }
}

/// A parser for a token sequence.
pub struct Parser<'a> {
    pub tokens: &'a [Token],
    pub pos: usize,
}

impl<'a> Parser<'a> {
    /// Creates a new parser which will parse the `tokens`.
    pub fn new(tokens: &'a [Token]) -> (r: Self)
        ensures
            r.tokens@ == tokens@,
            r.pos == 0,
    {
        Parser { tokens, pos: 0 }
    }

    /// Parses statements from the current position up to the end of input
    /// (see [`program_at`]), leaving the position after the last statement
    /// read.
    pub fn parse(&mut self) -> (r: Result<Vec<Stmt>, Diagnostic>)
        requires
            old(self).pos <= old(self).tokens.len(),
        ensures
            final(self).tokens@ == old(self).tokens@,
            match r {
                Ok(ss) => program_at(views(old(self).tokens@), old(self).pos as int) == Ok::<
                    Seq<StmtTree>,
                    (nat, Seq<char>),
                >(stmt_trees(ss@)),
                Err(d) => d is ParseError && program_at(views(old(self).tokens@), old(self).pos as int)
                    == Err::<Seq<StmtTree>, (nat, Seq<char>)>(failure(d)),
            },
    {
        let ts = self.tokens;
        let ghost v = views(ts@);
        let ghost start = self.pos as int;
        let mut stmts: Vec<Stmt> = Vec::new();
        while !is_eof(ts, self.pos)
            invariant
                v == views(ts@),
                self.tokens@ == ts@,
                ts@ == old(self).tokens@,
                start == old(self).pos,
                self.pos <= ts.len(),
                program_at(v, start) == match program_at(v, self.pos as int) {
                    Ok(rest) => Ok(stmt_trees(stmts@) + rest),
                    Err(x) => Err(x),
                },
            decreases ts.len() - self.pos,
        {
            let (st, j) = statement(ts, self.pos)?;
            let ghost before = stmt_trees(stmts@);
            stmts.push(st);
            proof {
                assert(stmt_trees(stmts@) == before + seq![stmt_tree(st)]);
                match program_at(v, j as int) {
                    Ok(rest) => {
                        assert(before + (seq![stmt_tree(st)] + rest) == (before + seq![stmt_tree(st)]) + rest);
                    },
                    Err(_) => {},
                }
            }
            self.pos = j;
        }
        assert(stmt_trees(stmts@) + seq![] == stmt_trees(stmts@));
        Ok(stmts)
    }
}

} // verus!
