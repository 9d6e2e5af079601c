//! Expressions of the language, as trees, and their evaluation.
use vstd::prelude::*;

use crate::number::{
    difference, less, less_equal, negation, product, quotient, render, same, sum, Number,
};
use crate::token::Token;
use crate::Diagnostic;

verus! {

/// Expression types.
#[derive(Debug, PartialEq)]
pub enum Expr {
    Assign(Assign),
    Binary(Binary),
    Call(Call),
    Get(Get),
    Grouping(Grouping),
    Literal(Literal),
    Logical(Logical),
    SetProperty(SetProperty),
    Super(Super),
    This,
    Unary(Unary),
    Variable(Variable),
}

/// Assignment expression.
#[derive(Debug, PartialEq)]
pub struct Assign {
    pub name: String,
    pub value: Box<Expr>,
}

/// Binary expression, with the line of its operator.
#[derive(Debug, PartialEq)]
pub struct Binary {
    pub left: Box<Expr>,
    pub right: Box<Expr>,
    pub operator: BinaryOp,
    pub line: usize,
}

/// Binary expression operators.
#[derive(Debug, Clone, Copy, PartialEq, Eq, Structural)]
pub enum BinaryOp {
    Less,
    LessEqual,
    Greater,
    GreaterEqual,
    Equal,
    NotEqual,
    Mul,
    Div,
    Add,
    Sub,
}

/// Function call expression.
#[derive(Debug, PartialEq)]
pub struct Call {
    pub calle: Box<Expr>,
    pub paren: Token,
    pub arguments: Vec<Expr>,
}

/// Property access expression.
#[derive(Debug, PartialEq)]
pub struct Get {
    pub object: Box<Expr>,
    pub name: Token,
}

/// Grouping expression.
#[derive(Debug, PartialEq)]
pub struct Grouping {
    pub expression: Box<Expr>,
}

/// Literal expression.
#[derive(Debug, PartialEq)]
pub struct Literal {
    pub value: LiteralValue,
}

/// Short-circuit logical expression.
#[derive(Debug, PartialEq)]
pub struct Logical {
    pub left: Box<Expr>,
    pub right: Box<Expr>,
    pub operator: Token,
}

/// Property assignment expression.
#[derive(Debug, PartialEq)]
pub struct SetProperty {
    pub object: Box<Expr>,
    pub name: Token,
    pub value: Box<Expr>,
}

/// Superclass method expression.
#[derive(Debug, PartialEq)]
pub struct Super {
    pub keyword: Token,
    pub method: Token,
}

/// Unary expression, with the line of its operator.
#[derive(Debug, PartialEq)]
pub struct Unary {
    pub operand: Box<Expr>,
    pub operator: UnaryOp,
    pub line: usize,
}

/// Unary expression operators.
#[derive(Debug, Clone, Copy, PartialEq, Eq, Structural)]
pub enum UnaryOp {
    Not,
    Neg,
}

/// Variable expression, with the line of its name (0 where unknown).
#[derive(Debug, PartialEq)]
pub struct Variable {
    pub name: String,
    pub line: usize,
}

/// Literal type.
#[derive(Debug, PartialEq)]
pub enum LiteralValue {
    Bool(bool),
    Nil,
    Number(Number),
    String(String),
}

/// A runtime value.
#[derive(Debug, PartialEq)]
pub enum LoxValue {
    Nil,
    Bool(bool),
    Number(Number),
    String(String),
}

/// A runtime value as contracts see it.
pub enum ValueView {
    Nil,
    Bool(bool),
    Number(Number),
    String(Seq<char>),
}

/// What an evaluation gives, as contracts see it: a value, or the line and
/// message of its error.
pub type EvalView = Result<ValueView, (nat, Seq<char>)>;

impl View for LoxValue {
    type V = ValueView;

    open spec fn view(&self) -> ValueView {
        match self {
            LoxValue::Nil => ValueView::Nil,
            LoxValue::Bool(b) => ValueView::Bool(*b),
            LoxValue::Number(n) => ValueView::Number(*n),
            LoxValue::String(s) => ValueView::String(s@),
        }
    }
}

/// The value that a literal denotes.
pub open spec fn literal_view(l: LiteralValue) -> ValueView {
    match l {
        LiteralValue::Bool(b) => ValueView::Bool(b),
        LiteralValue::Nil => ValueView::Nil,
        LiteralValue::Number(n) => ValueView::Number(n),
        LiteralValue::String(s) => ValueView::String(s@),
    }
}

/// Truthiness: `nil` and `false` are false, every other value is true.
pub open spec fn truthy(v: ValueView) -> bool {
    match v {
        ValueView::Nil => false,
        ValueView::Bool(b) => b,
        _ => true,
    }
}

/// The name of a value's type.
pub open spec fn kind_name(v: ValueView) -> Seq<char> {
    match v {
        ValueView::Nil => "Nil"@,
        ValueView::Bool(_) => "Bool"@,
        ValueView::Number(_) => "Number"@,
        ValueView::String(_) => "String"@,
    }
}

/// The text of a value: `nil`, `true`, `false`, a number's text, or a
/// string's contents without quotes.
pub open spec fn show(v: ValueView) -> Seq<char> {
    match v {
        ValueView::Nil => "nil"@,
        ValueView::Bool(b) => if b { "true"@ } else { "false"@ },
        ValueView::Number(n) => render(n),
        ValueView::String(s) => s,
    }
}

/// The message of an operation on two values of the wrong types.
pub open spec fn mismatch_message(l: ValueView, verb: Seq<char>, r: ValueView) -> Seq<char> {
    "value ["@ + show(l) + "] of type "@ + kind_name(l) + " cannot be "@ + verb + " value ["@ + show(r)
        + "] of type "@ + kind_name(r)
}

/// The message of a negation of a value that is not a number.
pub open spec fn negate_message(v: ValueView) -> Seq<char> {
    "value ["@ + show(v) + "] of type "@ + kind_name(v) + " cannot be negated"@
}

pub open spec fn unsupported_message() -> Seq<char> {
    "expression not supported"@
}

/// The verb of the message of a binary operator applied to wrong types.
pub open spec fn verb(op: BinaryOp) -> Seq<char> {
    match op {
        BinaryOp::Add => "added to"@,
        BinaryOp::Sub => "subtracted by"@,
        BinaryOp::Mul => "multiplied by"@,
        BinaryOp::Div => "divided by"@,
        _ => "compared with"@,
    }
}

/// What a binary operator gives on two values, at line `line`.
pub open spec fn binary_value(op: BinaryOp, l: ValueView, r: ValueView, line: nat) -> EvalView {
    let wrong = Err((line, mismatch_message(l, verb(op), r)));
    match (l, r) {
        (ValueView::Number(a), ValueView::Number(b)) => match op {
            BinaryOp::Add => Ok(ValueView::Number(sum(a, b))),
            BinaryOp::Sub => Ok(ValueView::Number(difference(a, b))),
            BinaryOp::Mul => Ok(ValueView::Number(product(a, b))),
            BinaryOp::Div => Ok(ValueView::Number(quotient(a, b))),
            BinaryOp::Less => Ok(ValueView::Bool(less(a, b))),
            BinaryOp::LessEqual => Ok(ValueView::Bool(less_equal(a, b))),
            BinaryOp::Greater => Ok(ValueView::Bool(less(b, a))),
            BinaryOp::GreaterEqual => Ok(ValueView::Bool(less_equal(b, a))),
            BinaryOp::Equal => Ok(ValueView::Bool(same(a, b))),
            BinaryOp::NotEqual => Ok(ValueView::Bool(!same(a, b))),
        },
        (ValueView::String(a), ValueView::String(b)) => match op {
            BinaryOp::Add => Ok(ValueView::String(a + b)),
            BinaryOp::Equal => Ok(ValueView::Bool(a == b)),
            BinaryOp::NotEqual => Ok(ValueView::Bool(a != b)),
            _ => wrong,
        },
        (ValueView::Bool(a), ValueView::Bool(b)) => match op {
            BinaryOp::Equal => Ok(ValueView::Bool(a == b)),
            BinaryOp::NotEqual => Ok(ValueView::Bool(a != b)),
            _ => wrong,
        },
        (ValueView::Nil, ValueView::Nil) => match op {
            BinaryOp::Equal => Ok(ValueView::Bool(true)),
            BinaryOp::NotEqual => Ok(ValueView::Bool(false)),
            _ => wrong,
        },
        _ => wrong,
    }
}

/// What a unary operator gives on a value, at line `line`.
pub open spec fn unary_value(op: UnaryOp, v: ValueView, line: nat) -> EvalView {
    match op {
        UnaryOp::Not => Ok(ValueView::Bool(!truthy(v))),
        UnaryOp::Neg => match v {
            ValueView::Number(a) => Ok(ValueView::Number(negation(a))),
            _ => Err((line, negate_message(v))),
        },
    }
}

/// The line that an expression of a form without an evaluation rule reports.
pub open spec fn site_line(e: Expr) -> nat {
    match e {
        Expr::Call(c) => c.paren.line as nat,
        Expr::Get(g) => g.name.line as nat,
        Expr::Logical(l) => l.operator.line as nat,
        Expr::SetProperty(s) => s.name.line as nat,
        Expr::Super(s) => s.keyword.line as nat,
        Expr::Variable(v) => v.line as nat,
        _ => 0,
    }
}

/// The value of an expression tree: literals denote themselves, groupings
/// their inner expression, operators apply to the values of their operands
/// from left to right, and the first error met is the result. The other
/// forms have no evaluation rule and fail.
pub open spec fn evaluate(t: Tree) -> EvalView
    decreases t,
{
    match t {
        Tree::Literal(v) => Ok(v),
        Tree::Grouping(g) => evaluate(*g),
        Tree::Unary(op, operand, line) => match evaluate(*operand) {
            Ok(v) => unary_value(op, v, line),
            Err(x) => Err(x),
        },
        Tree::Binary(op, left, right, line) => match evaluate(*left) {
            Ok(l) => match evaluate(*right) {
                Ok(r) => binary_value(op, l, r, line),
                Err(x) => Err(x),
            },
            Err(x) => Err(x),
        },
        Tree::Variable(_, line) => Err((line, unsupported_message())),
        Tree::Other(line) => Err((line, unsupported_message())),
    }
}

/// The value of an expression (see [`evaluate`]).
pub open spec fn value_of(e: Expr) -> EvalView {
    evaluate(tree_of(e))
}

/// The error of an evaluation, as contracts see it.
pub open spec fn failure(d: Diagnostic) -> (nat, Seq<char>) {
    match d {
        Diagnostic::LoxError { line, message } => (line as nat, message@),
        Diagnostic::ParseError { line, message } => (line as nat, message@),
    }
}

/// An evaluation error at `line`.
fn fail(line: usize, message: String) -> (r: Result<LoxValue, Diagnostic>)
    ensures
        r matches Err(Diagnostic::LoxError { line: l, message: m }) && l == line && m@ == message@,
{
    Err(Diagnostic::LoxError { line, message })
}

impl LoxValue {
    /// Truthiness of the value.
    pub fn is_truthy(&self) -> (r: bool)
        ensures
            r == truthy(self@),
    {
        match self {
            LoxValue::Nil => false,
            LoxValue::Bool(val) => *val,
            _ => true,
        }
    }

    /// The name of the value's type.
    pub fn type_str(&self) -> (r: &'static str)
        ensures
            r@ == kind_name(self@),
    {
        match self {
            LoxValue::Number(_) => "Number",
            LoxValue::String(_) => "String",
            LoxValue::Bool(_) => "Bool",
            LoxValue::Nil => "Nil",
        }
    }

    /// The text of the value, as `print` writes it.
    pub fn to_text(&self) -> (r: String)
        ensures
            r@ == show(self@),
    {
        match self {
            LoxValue::Number(n) => n.to_text(),
            LoxValue::Bool(val) => if *val { String::from_str("true") } else { String::from_str("false") },
            LoxValue::String(s) => s.clone(),
            LoxValue::Nil => String::from_str("nil"),
        }
    }
}

/// `value [l] of type L cannot be <verb> value [r] of type R`.
fn mismatch(l: &LoxValue, verb_text: &str, r: &LoxValue) -> (m: String)
    ensures
        m@ == mismatch_message(l@, verb_text@, r@),
{
    let mut m = String::from_str("value [");
    m.append(l.to_text().as_str());
    m.append("] of type ");
    m.append(l.type_str());
    m.append(" cannot be ");
    m.append(verb_text);
    m.append(" value [");
    m.append(r.to_text().as_str());
    m.append("] of type ");
    m.append(r.type_str());
    m
}

fn verb_text(op: BinaryOp) -> (r: &'static str)
    ensures
        r@ == verb(op),
{
    match op {
        BinaryOp::Add => "added to",
        BinaryOp::Sub => "subtracted by",
        BinaryOp::Mul => "multiplied by",
        BinaryOp::Div => "divided by",
        _ => "compared with",
    }
}

impl Binary {
    pub fn new(left: Expr, right: Expr, operator: BinaryOp, line: usize) -> (r: Self)
        ensures
            *r.left == left,
            *r.right == right,
            r.operator == operator,
            r.line == line,
    {
        Binary { left: Box::new(left), right: Box::new(right), operator, line }
    }

    /// Applies the operator to two values.
    pub fn apply(op: BinaryOp, left: LoxValue, right: LoxValue, line: usize) -> (r: Result<
        LoxValue,
        Diagnostic,
    >)
        ensures
            match r {
                Ok(v) => binary_value(op, left@, right@, line as nat) == EvalView::Ok(v@),
                Err(d) => d is LoxError && binary_value(op, left@, right@, line as nat)
                    == EvalView::Err(failure(d)),
            },
    {
        match (&left, &right) {
            (LoxValue::Number(a), LoxValue::Number(b)) => match op {
                BinaryOp::Add => Ok(LoxValue::Number(a.add(b))),
                BinaryOp::Sub => Ok(LoxValue::Number(a.sub(b))),
                BinaryOp::Mul => Ok(LoxValue::Number(a.mul(b))),
                BinaryOp::Div => Ok(LoxValue::Number(a.div(b))),
                BinaryOp::Less => Ok(LoxValue::Bool(a.lt(b))),
                BinaryOp::LessEqual => Ok(LoxValue::Bool(a.le(b))),
                BinaryOp::Greater => Ok(LoxValue::Bool(b.lt(a))),
                BinaryOp::GreaterEqual => Ok(LoxValue::Bool(b.le(a))),
                BinaryOp::Equal => Ok(LoxValue::Bool(a.same_as(b))),
                BinaryOp::NotEqual => Ok(LoxValue::Bool(!a.same_as(b))),
            },
            (LoxValue::String(a), LoxValue::String(b)) => match op {
                BinaryOp::Add => {
                    let joined = a.clone().concat(b.as_str());
                    Ok(LoxValue::String(joined))
                },
                BinaryOp::Equal => Ok(LoxValue::Bool(*a == *b)),
                BinaryOp::NotEqual => Ok(LoxValue::Bool(!(*a == *b))),
                _ => fail(line, mismatch(&left, verb_text(op), &right)),
            },
            (LoxValue::Bool(a), LoxValue::Bool(b)) => match op {
                BinaryOp::Equal => Ok(LoxValue::Bool(*a == *b)),
                BinaryOp::NotEqual => Ok(LoxValue::Bool(*a != *b)),
                _ => fail(line, mismatch(&left, verb_text(op), &right)),
            },
            (LoxValue::Nil, LoxValue::Nil) => match op {
                BinaryOp::Equal => Ok(LoxValue::Bool(true)),
                BinaryOp::NotEqual => Ok(LoxValue::Bool(false)),
                _ => fail(line, mismatch(&left, verb_text(op), &right)),
            },
            _ => fail(line, mismatch(&left, verb_text(op), &right)),
        }
    }
}

impl Unary {
    pub fn new(operand: Expr, operator: UnaryOp, line: usize) -> (r: Self)
        ensures
            *r.operand == operand,
            r.operator == operator,
            r.line == line,
    {
        Unary { operand: Box::new(operand), operator, line }
    }

    /// Applies the operator to a value.
    pub fn apply(op: UnaryOp, operand: LoxValue, line: usize) -> (r: Result<LoxValue, Diagnostic>)
        ensures
            match r {
                Ok(v) => unary_value(op, operand@, line as nat) == EvalView::Ok(v@),
                Err(d) => d is LoxError && unary_value(op, operand@, line as nat) == EvalView::Err(
                    failure(d),
                ),
            },
    {
        match op {
            UnaryOp::Not => Ok(LoxValue::Bool(!operand.is_truthy())),
            UnaryOp::Neg => match &operand {
                LoxValue::Number(num) => Ok(LoxValue::Number(num.neg())),
                _ => {
                    let mut m = String::from_str("value [");
                    m.append(operand.to_text().as_str());
                    m.append("] of type ");
                    m.append(operand.type_str());
                    m.append(" cannot be negated");
                    fail(line, m)
                },
            },
        }
    }
}

impl Literal {
    pub fn new(value: LiteralValue) -> (r: Self)
        ensures
            r.value == value,
    {
        Literal { value }
    }

    /// The value that the literal denotes.
    pub fn eval(&self) -> (r: LoxValue)
        ensures
            r@ == literal_view(self.value),
    {
        match &self.value {
            LiteralValue::Bool(val) => LoxValue::Bool(*val),
            LiteralValue::String(val) => LoxValue::String(val.clone()),
            LiteralValue::Nil => LoxValue::Nil,
            LiteralValue::Number(val) => LoxValue::Number(*val),
        }
    }
}

impl Variable {
    /// A variable named `name`, at no known line.
    pub fn new(name: String) -> (r: Self)
        ensures
            r.name@ == name@,
            r.line == 0,
    {
        Variable { name, line: 0 }
    }

    /// A variable named `name` at line `line`.
    pub fn at(name: String, line: usize) -> (r: Self)
        ensures
            r.name@ == name@,
            r.line == line,
    {
        Variable { name, line }
    }
}

impl Expr {
    /// Evaluates the expression (see [`value_of`]).
    pub fn eval(&self) -> (r: Result<LoxValue, Diagnostic>)
        ensures
            match r {
                Ok(v) => value_of(*self) == EvalView::Ok(v@),
                Err(d) => d is LoxError && value_of(*self) == EvalView::Err(failure(d)),
            },
        decreases self,
    {
        match self {
            Expr::Literal(l) => Ok(l.eval()),
            Expr::Grouping(g) => g.expression.eval(),
            Expr::Unary(u) => {
                let v = u.operand.eval()?;
                Unary::apply(u.operator, v, u.line)
            },
            Expr::Binary(b) => {
                let l = b.left.eval()?;
                let r = b.right.eval()?;
                Binary::apply(b.operator, l, r, b.line)
            },
            Expr::Call(c) => fail(c.paren.line, String::from_str("expression not supported")),
            Expr::Get(g) => fail(g.name.line, String::from_str("expression not supported")),
            Expr::Logical(l) => fail(l.operator.line, String::from_str("expression not supported")),
            Expr::SetProperty(s) => fail(s.name.line, String::from_str("expression not supported")),
            Expr::Super(s) => fail(s.keyword.line, String::from_str("expression not supported")),
            Expr::Variable(v) => fail(v.line, String::from_str("expression not supported")),
            _ => fail(0, String::from_str("expression not supported")),
        }
    }
}

/// The shape of an expression as contracts see it, with the lines of its
/// operators and names.
pub enum Tree {
    Literal(ValueView),
    Variable(Seq<char>, nat),
    Grouping(Box<Tree>),
    Unary(UnaryOp, Box<Tree>, nat),
    Binary(BinaryOp, Box<Tree>, Box<Tree>, nat),
    /// A form that the parser never builds, with the line it reports.
    Other(nat),
}

pub open spec fn tree_of(e: Expr) -> Tree
    decreases e,
{
    match e {
        Expr::Literal(l) => Tree::Literal(literal_view(l.value)),
        Expr::Variable(v) => Tree::Variable(v.name@, v.line as nat),
        Expr::Grouping(g) => Tree::Grouping(Box::new(tree_of(*g.expression))),
        Expr::Unary(u) => Tree::Unary(u.operator, Box::new(tree_of(*u.operand)), u.line as nat),
        Expr::Binary(b) => Tree::Binary(
            b.operator,
            Box::new(tree_of(*b.left)),
            Box::new(tree_of(*b.right)),
            b.line as nat,
        ),
        _ => Tree::Other(site_line(e)),
    }
}

} // verus!
