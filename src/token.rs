//! Lexical units of the language and their source lines.
use vstd::prelude::*;

use crate::number::{render, Number};

verus! {

/// A token: what was read and the line it was read on.
#[derive(Debug, PartialEq, Clone)]
pub struct Token {
    pub token_type: TokenType,
    pub line: usize,
}

/// The kinds of token.
#[derive(Debug, PartialEq, Clone)]
pub enum TokenType {
    // Single character tokens
    LeftParen,
    RightParen,
    LeftBrace,
    RightBrace,
    Comma,
    Dot,
    Minus,
    Plus,
    Semicolon,
    Slash,
    Star,
    // One or two character tokens
    Bang,
    BangEqual,
    Equal,
    EqualEqual,
    Less,
    LessEqual,
    Greater,
    GreaterEqual,
    // Literals
    Identifier(String),
    String(String),
    Number(Number),
    // Keywords
    And,
    Class,
    Else,
    False,
    Fun,
    For,
    If,
    Nil,
    Or,
    Print,
    Return,
    Super,
    This,
    True,
    Var,
    While,
    // End of input
    Eof,
}

/// The kinds of token, with the text of names and strings held as `S`:
/// contracts speak of a [`TokenType`] as a `TokenKind<Seq<char>>`.
#[derive(Debug, PartialEq, Clone)]
pub enum TokenKind<S> {
    // Single character tokens
    LeftParen,
    RightParen,
    LeftBrace,
    RightBrace,
    Comma,
    Dot,
    Minus,
    Plus,
    Semicolon,
    Slash,
    Star,
    // One or two character tokens
    Bang,
    BangEqual,
    Equal,
    EqualEqual,
    Less,
    LessEqual,
    Greater,
    GreaterEqual,
    // Literals
    Identifier(S),
    String(S),
    Number(Number),
    // Keywords
    And,
    Class,
    Else,
    False,
    Fun,
    For,
    If,
    Nil,
    Or,
    Print,
    Return,
    Super,
    This,
    True,
    Var,
    While,
    // End of input
    Eof,
}

/// The kind of a token as contracts see it.
pub type KindView = TokenKind<Seq<char>>;

/// A token as contracts see it: its kind and its line.
pub type TokenView = (KindView, nat);

impl View for TokenType {
    type V = KindView;

    open spec fn view(&self) -> KindView {
        match self {
            TokenType::LeftParen => TokenKind::LeftParen,
            TokenType::RightParen => TokenKind::RightParen,
            TokenType::LeftBrace => TokenKind::LeftBrace,
            TokenType::RightBrace => TokenKind::RightBrace,
            TokenType::Comma => TokenKind::Comma,
            TokenType::Dot => TokenKind::Dot,
            TokenType::Minus => TokenKind::Minus,
            TokenType::Plus => TokenKind::Plus,
            TokenType::Semicolon => TokenKind::Semicolon,
            TokenType::Slash => TokenKind::Slash,
            TokenType::Star => TokenKind::Star,
            TokenType::Bang => TokenKind::Bang,
            TokenType::BangEqual => TokenKind::BangEqual,
            TokenType::Equal => TokenKind::Equal,
            TokenType::EqualEqual => TokenKind::EqualEqual,
            TokenType::Less => TokenKind::Less,
            TokenType::LessEqual => TokenKind::LessEqual,
            TokenType::Greater => TokenKind::Greater,
            TokenType::GreaterEqual => TokenKind::GreaterEqual,
            TokenType::Identifier(s) => TokenKind::Identifier(s@),
            TokenType::String(s) => TokenKind::String(s@),
            TokenType::Number(n) => TokenKind::Number(*n),
            TokenType::And => TokenKind::And,
            TokenType::Class => TokenKind::Class,
            TokenType::Else => TokenKind::Else,
            TokenType::False => TokenKind::False,
            TokenType::Fun => TokenKind::Fun,
            TokenType::For => TokenKind::For,
            TokenType::If => TokenKind::If,
            TokenType::Nil => TokenKind::Nil,
            TokenType::Or => TokenKind::Or,
            TokenType::Print => TokenKind::Print,
            TokenType::Return => TokenKind::Return,
            TokenType::Super => TokenKind::Super,
            TokenType::This => TokenKind::This,
            TokenType::True => TokenKind::True,
            TokenType::Var => TokenKind::Var,
            TokenType::While => TokenKind::While,
            TokenType::Eof => TokenKind::Eof,
        }
    }
}

impl View for Token {
    type V = TokenView;

    open spec fn view(&self) -> TokenView {
        (self.token_type@, self.line as nat)
    }
}

/// The reserved word spelled by `w`, if any.
pub open spec fn keyword_of(w: Seq<char>) -> Option<KindView> {
    if w == seq!['a', 'n', 'd'] {
        Some(TokenKind::And)
    } else if w == seq!['c', 'l', 'a', 's', 's'] {
        Some(TokenKind::Class)
    } else if w == seq!['e', 'l', 's', 'e'] {
        Some(TokenKind::Else)
    } else if w == seq!['f', 'a', 'l', 's', 'e'] {
        Some(TokenKind::False)
    } else if w == seq!['f', 'o', 'r'] {
        Some(TokenKind::For)
    } else if w == seq!['f', 'u', 'n'] {
        Some(TokenKind::Fun)
    } else if w == seq!['i', 'f'] {
        Some(TokenKind::If)
    } else if w == seq!['n', 'i', 'l'] {
        Some(TokenKind::Nil)
    } else if w == seq!['o', 'r'] {
        Some(TokenKind::Or)
    } else if w == seq!['p', 'r', 'i', 'n', 't'] {
        Some(TokenKind::Print)
    } else if w == seq!['r', 'e', 't', 'u', 'r', 'n'] {
        Some(TokenKind::Return)
    } else if w == seq!['s', 'u', 'p', 'e', 'r'] {
        Some(TokenKind::Super)
    } else if w == seq!['t', 'h', 'i', 's'] {
        Some(TokenKind::This)
    } else if w == seq!['t', 'r', 'u', 'e'] {
        Some(TokenKind::True)
    } else if w == seq!['v', 'a', 'r'] {
        Some(TokenKind::Var)
    } else if w == seq!['w', 'h', 'i', 'l', 'e'] {
        Some(TokenKind::While)
    } else {
        None
    }
}

/// The token that a word makes: its reserved word, or else an identifier.
pub open spec fn word_kind(w: Seq<char>) -> KindView {
    match keyword_of(w) {
        Some(k) => k,
        None => TokenKind::Identifier(w),
    }
}

/// Whether the characters of `cs` from `start` to `end` spell `lit`.
fn spells(cs: &[char], start: usize, end: usize, lit: &[char]) -> (r: bool)
    requires
        start <= end <= cs.len(),
    ensures
        r == (cs@.subrange(start as int, end as int) == lit@),
{
    let ghost w = cs@.subrange(start as int, end as int);
    if end - start != lit.len() {
        return false;
    }
    let mut i: usize = 0;
    while i < lit.len()
        invariant
            start <= end <= cs.len(),
            end - start == lit.len(),
            w == cs@.subrange(start as int, end as int),
            i <= lit.len(),
            w.take(i as int) == lit@.take(i as int),
        decreases lit.len() - i,
    {
        if cs[start + i] != lit[i] {
            assert(w[i as int] != lit@[i as int]);
            return false;
        }
        assert(w.take(i + 1) == w.take(i as int).push(w[i as int]));
        assert(lit@.take(i + 1) == lit@.take(i as int).push(lit@[i as int]));
        i = i + 1;
    }
    assert(w == w.take(i as int));
    assert(lit@ == lit@.take(i as int));
    true
}

/// Looks the word of `cs` from `start` to `end` up among the reserved words.
pub(crate) fn keyword(cs: &[char], start: usize, end: usize) -> (r: Option<TokenType>)
    requires
        start <= end <= cs.len(),
    ensures
        match r {
            Some(k) => keyword_of(cs@.subrange(start as int, end as int)) == Some(k@),
            None => keyword_of(cs@.subrange(start as int, end as int)) is None,
        },
{
    if spells(cs, start, end, &['a', 'n', 'd']) {
        Some(TokenType::And)
    } else if spells(cs, start, end, &['c', 'l', 'a', 's', 's']) {
        Some(TokenType::Class)
    } else if spells(cs, start, end, &['e', 'l', 's', 'e']) {
        Some(TokenType::Else)
    } else if spells(cs, start, end, &['f', 'a', 'l', 's', 'e']) {
        Some(TokenType::False)
    } else if spells(cs, start, end, &['f', 'o', 'r']) {
        Some(TokenType::For)
    } else if spells(cs, start, end, &['f', 'u', 'n']) {
        Some(TokenType::Fun)
    } else if spells(cs, start, end, &['i', 'f']) {
        Some(TokenType::If)
    } else if spells(cs, start, end, &['n', 'i', 'l']) {
        Some(TokenType::Nil)
    } else if spells(cs, start, end, &['o', 'r']) {
        Some(TokenType::Or)
    } else if spells(cs, start, end, &['p', 'r', 'i', 'n', 't']) {
        Some(TokenType::Print)
    } else if spells(cs, start, end, &['r', 'e', 't', 'u', 'r', 'n']) {
        Some(TokenType::Return)
    } else if spells(cs, start, end, &['s', 'u', 'p', 'e', 'r']) {
        Some(TokenType::Super)
    } else if spells(cs, start, end, &['t', 'h', 'i', 's']) {
        Some(TokenType::This)
    } else if spells(cs, start, end, &['t', 'r', 'u', 'e']) {
        Some(TokenType::True)
    } else if spells(cs, start, end, &['v', 'a', 'r']) {
        Some(TokenType::Var)
    } else if spells(cs, start, end, &['w', 'h', 'i', 'l', 'e']) {
        Some(TokenType::While)
    } else {
        None
    }
}

/// The text of a token kind that scans back to it: a mark's characters, a
/// word's letters, a name, a string in double quotes, a number's text
/// (see [`render`]); nothing for the end of input.
pub open spec fn canonical(k: KindView) -> Seq<char> {
    match k {
        TokenKind::LeftParen => seq!['('],
        TokenKind::RightParen => seq![')'],
        TokenKind::LeftBrace => seq!['{'],
        TokenKind::RightBrace => seq!['}'],
        TokenKind::Comma => seq![','],
        TokenKind::Dot => seq!['.'],
        TokenKind::Minus => seq!['-'],
        TokenKind::Plus => seq!['+'],
        TokenKind::Semicolon => seq![';'],
        TokenKind::Slash => seq!['/'],
        TokenKind::Star => seq!['*'],
        TokenKind::Bang => seq!['!'],
        TokenKind::BangEqual => seq!['!', '='],
        TokenKind::Equal => seq!['='],
        TokenKind::EqualEqual => seq!['=', '='],
        TokenKind::Less => seq!['<'],
        TokenKind::LessEqual => seq!['<', '='],
        TokenKind::Greater => seq!['>'],
        TokenKind::GreaterEqual => seq!['>', '='],
        TokenKind::And => seq!['a', 'n', 'd'],
        TokenKind::Class => seq!['c', 'l', 'a', 's', 's'],
        TokenKind::Else => seq!['e', 'l', 's', 'e'],
        TokenKind::False => seq!['f', 'a', 'l', 's', 'e'],
        TokenKind::Fun => seq!['f', 'u', 'n'],
        TokenKind::For => seq!['f', 'o', 'r'],
        TokenKind::If => seq!['i', 'f'],
        TokenKind::Nil => seq!['n', 'i', 'l'],
        TokenKind::Or => seq!['o', 'r'],
        TokenKind::Print => seq!['p', 'r', 'i', 'n', 't'],
        TokenKind::Return => seq!['r', 'e', 't', 'u', 'r', 'n'],
        TokenKind::Super => seq!['s', 'u', 'p', 'e', 'r'],
        TokenKind::This => seq!['t', 'h', 'i', 's'],
        TokenKind::True => seq!['t', 'r', 'u', 'e'],
        TokenKind::Var => seq!['v', 'a', 'r'],
        TokenKind::While => seq!['w', 'h', 'i', 'l', 'e'],
        TokenKind::Identifier(w) => w,
        TokenKind::String(c) => seq!['"'] + c + seq!['"'],
        TokenKind::Number(n) => render(n),
        TokenKind::Eof => seq![],
    }
}

impl TokenType {
    /// The text of the token kind (see [`canonical`]).
    pub fn to_text(&self) -> (r: String)
        ensures
            r@ == canonical(self@),
    {
        match self {
            TokenType::LeftParen => {
                proof {
                    reveal_strlit("(");
                }
                String::from_str("(")
            },
            TokenType::RightParen => {
                proof {
                    reveal_strlit(")");
                }
                String::from_str(")")
            },
            TokenType::LeftBrace => {
                proof {
                    reveal_strlit("{");
                }
                String::from_str("{")
            },
            TokenType::RightBrace => {
                proof {
                    reveal_strlit("}");
                }
                String::from_str("}")
            },
            TokenType::Comma => {
                proof {
                    reveal_strlit(",");
                }
                String::from_str(",")
            },
            TokenType::Dot => {
                proof {
                    reveal_strlit(".");
                }
                String::from_str(".")
            },
            TokenType::Minus => {
                proof {
                    reveal_strlit("-");
                }
                String::from_str("-")
            },
            TokenType::Plus => {
                proof {
                    reveal_strlit("+");
                }
                String::from_str("+")
            },
            TokenType::Semicolon => {
                proof {
                    reveal_strlit(";");
                }
                String::from_str(";")
            },
            TokenType::Slash => {
                proof {
                    reveal_strlit("/");
                }
                String::from_str("/")
            },
            TokenType::Star => {
                proof {
                    reveal_strlit("*");
                }
                String::from_str("*")
            },
            TokenType::Bang => {
                proof {
                    reveal_strlit("!");
                }
                String::from_str("!")
            },
            TokenType::BangEqual => {
                proof {
                    reveal_strlit("!=");
                }
                String::from_str("!=")
            },
            TokenType::Equal => {
                proof {
                    reveal_strlit("=");
                }
                String::from_str("=")
            },
            TokenType::EqualEqual => {
                proof {
                    reveal_strlit("==");
                }
                String::from_str("==")
            },
            TokenType::Less => {
                proof {
                    reveal_strlit("<");
                }
                String::from_str("<")
            },
            TokenType::LessEqual => {
                proof {
                    reveal_strlit("<=");
                }
                String::from_str("<=")
            },
            TokenType::Greater => {
                proof {
                    reveal_strlit(">");
                }
                String::from_str(">")
            },
            TokenType::GreaterEqual => {
                proof {
                    reveal_strlit(">=");
                }
                String::from_str(">=")
            },
            TokenType::And => {
                proof {
                    reveal_strlit("and");
                }
                String::from_str("and")
            },
            TokenType::Class => {
                proof {
                    reveal_strlit("class");
                }
                String::from_str("class")
            },
            TokenType::Else => {
                proof {
                    reveal_strlit("else");
                }
                String::from_str("else")
            },
            TokenType::False => {
                proof {
                    reveal_strlit("false");
                }
                String::from_str("false")
            },
            TokenType::Fun => {
                proof {
                    reveal_strlit("fun");
                }
                String::from_str("fun")
            },
            TokenType::For => {
                proof {
                    reveal_strlit("for");
                }
                String::from_str("for")
            },
            TokenType::If => {
                proof {
                    reveal_strlit("if");
                }
                String::from_str("if")
            },
            TokenType::Nil => {
                proof {
                    reveal_strlit("nil");
                }
                String::from_str("nil")
            },
            TokenType::Or => {
                proof {
                    reveal_strlit("or");
                }
                String::from_str("or")
            },
            TokenType::Print => {
                proof {
                    reveal_strlit("print");
                }
                String::from_str("print")
            },
            TokenType::Return => {
                proof {
                    reveal_strlit("return");
                }
                String::from_str("return")
            },
            TokenType::Super => {
                proof {
                    reveal_strlit("super");
                }
                String::from_str("super")
            },
            TokenType::This => {
                proof {
                    reveal_strlit("this");
                }
                String::from_str("this")
            },
            TokenType::True => {
                proof {
                    reveal_strlit("true");
                }
                String::from_str("true")
            },
            TokenType::Var => {
                proof {
                    reveal_strlit("var");
                }
                String::from_str("var")
            },
            TokenType::While => {
                proof {
                    reveal_strlit("while");
                }
                String::from_str("while")
            },
            TokenType::Identifier(w) => w.clone(),
            TokenType::String(c) => {
                proof {
                    reveal_strlit("\"");
                }
                let mut r = String::from_str("\"");
                r.append(c.as_str());
                r.append("\"");
                r
            },
            TokenType::Number(n) => n.to_text(),
            TokenType::Eof => String::new(),
        }
    }
}

} // verus!
