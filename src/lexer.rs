//! The scanner: from source text to tokens.
use vstd::prelude::*;

use crate::number::{infinity, lemma_pow10_places, pow10, Number, MAX_PLACES};
use crate::token::{keyword, keyword_of, word_kind, KindView, Token, TokenKind, TokenType, TokenView};
use crate::Diagnostic;

verus! {

/// What a scan gives, as contracts see it: the tokens, or the line and
/// message of the error that stopped it.
pub type ScanView = Result<Seq<TokenView>, (nat, Seq<char>)>;

/// A class of characters that a run of them is made of.
#[derive(Clone, Copy, PartialEq, Eq, Structural)]
pub enum RunClass {
    /// `0` to `9`.
    Digit,
    /// Letters, digits and `_`.
    Word,
    /// Anything but a newline.
    Line,
    /// Anything but a newline or a double quote.
    Quoted,
}

pub open spec fn digit_char(c: char) -> bool {
    '0' <= c <= '9'
}

/// A character that may begin a name.
pub open spec fn word_start(c: char) -> bool {
    ('a' <= c <= 'z') || ('A' <= c <= 'Z') || c == '_'
}

pub open spec fn in_class(c: char, class: RunClass) -> bool {
    match class {
        RunClass::Digit => digit_char(c),
        RunClass::Word => word_start(c) || digit_char(c),
        RunClass::Line => c != '\n',
        RunClass::Quoted => c != '\n' && c != '"',
    }
}

/// The end of the longest run of `class` characters of `s` that starts at `i`.
pub open spec fn run_end(s: Seq<char>, i: int, class: RunClass) -> int
    decreases s.len() - i,
{
    if 0 <= i < s.len() && in_class(s[i], class) {
        run_end(s, i + 1, class)
    } else {
        i
    }
}

/// The value of a run of decimal digits.
pub open spec fn digits_value(d: Seq<char>) -> int
    decreases d.len(),
{
    if d.len() == 0 {
        0
    } else {
        10 * digits_value(d.drop_last()) + (d.last() as int - '0' as int)
    }
}

/// Whether the digits that begin at `i` are followed by a `.` and another digit.
pub open spec fn has_fraction(s: Seq<char>, i: int) -> bool {
    let e = run_end(s, i, RunClass::Digit);
    e + 1 < s.len() && s[e] == '.' && digit_char(s[e + 1])
}

/// The end of the number literal that begins at `i`.
pub open spec fn number_end(s: Seq<char>, i: int) -> int {
    let e = run_end(s, i, RunClass::Digit);
    if has_fraction(s, i) {
        run_end(s, e + 1, RunClass::Digit)
    } else {
        e
    }
}

/// The digits before the point of the number literal that begins at `i`.
pub open spec fn whole_digits(s: Seq<char>, i: int) -> Seq<char> {
    s.subrange(i, run_end(s, i, RunClass::Digit))
}

/// The digits after the point of the number literal that begins at `i`.
pub open spec fn fraction_digits(s: Seq<char>, i: int) -> Seq<char> {
    if has_fraction(s, i) {
        s.subrange(run_end(s, i, RunClass::Digit) + 1, number_end(s, i))
    } else {
        seq![]
    }
}

/// The value of the digits `w` followed by the first `k` digits of `f`,
/// rounded by the digit of `f` after those (up from 5).
pub open spec fn rounded_prefix(w: Seq<char>, f: Seq<char>, k: nat) -> int {
    digits_value(w + f.take(k as int)) + if k < f.len() && f[k as int] >= '5' {
        1int
    } else {
        0int
    }
}

/// How many digits after the point a number literal keeps: digits are taken
/// one by one, up to `MAX_PLACES`, while the rounded value fits in an `i64`.
pub open spec fn literal_places(w: Seq<char>, f: Seq<char>, k: nat) -> nat
    decreases MAX_PLACES - k,
{
    if k < MAX_PLACES && k < f.len() && rounded_prefix(w, f, k + 1) <= i64::MAX {
        literal_places(w, f, k + 1)
    } else {
        k
    }
}

/// The number that a literal with whole digits `w` and fraction digits `f`
/// stands for: exact where it has at most `MAX_PLACES` fraction digits and
/// its digits fit in an `i64`; else rounded to the most fraction digits that
/// fit; infinity where even its whole part does not.
pub open spec fn literal_value(w: Seq<char>, f: Seq<char>) -> Number {
    if rounded_prefix(w, f, 0) > i64::MAX {
        infinity(1)
    } else {
        let k = literal_places(w, f, 0);
        Number { num: rounded_prefix(w, f, k) as i64, den: pow10(k) as i64 }
    }
}

pub open spec fn unexpected_message(c: char) -> Seq<char> {
    "Unexpected character: '"@ + seq![c] + "'"@
}

pub open spec fn unterminated_message(content: Seq<char>) -> Seq<char> {
    "Unterminated string literal: \""@ + content + "\""@
}

/// The kind of a one- or two-character operator or punctuation mark at `i`,
/// with its length.
pub open spec fn symbol(s: Seq<char>, i: int) -> Option<(KindView, int)> {
    let c = s[i];
    let eq_next = i + 1 < s.len() && s[i + 1] == '=';
    if c == '(' {
        Some((TokenKind::LeftParen, 1))
    } else if c == ')' {
        Some((TokenKind::RightParen, 1))
    } else if c == '{' {
        Some((TokenKind::LeftBrace, 1))
    } else if c == '}' {
        Some((TokenKind::RightBrace, 1))
    } else if c == ',' {
        Some((TokenKind::Comma, 1))
    } else if c == '.' {
        Some((TokenKind::Dot, 1))
    } else if c == '-' {
        Some((TokenKind::Minus, 1))
    } else if c == '+' {
        Some((TokenKind::Plus, 1))
    } else if c == ';' {
        Some((TokenKind::Semicolon, 1))
    } else if c == '*' {
        Some((TokenKind::Star, 1))
    } else if c == '/' {
        Some((TokenKind::Slash, 1))
    } else if c == '!' {
        if eq_next { Some((TokenKind::BangEqual, 2)) } else { Some((TokenKind::Bang, 1)) }
    } else if c == '=' {
        if eq_next { Some((TokenKind::EqualEqual, 2)) } else { Some((TokenKind::Equal, 1)) }
    } else if c == '<' {
        if eq_next { Some((TokenKind::LessEqual, 2)) } else { Some((TokenKind::Less, 1)) }
    } else if c == '>' {
        if eq_next { Some((TokenKind::GreaterEqual, 2)) } else { Some((TokenKind::Greater, 1)) }
    } else {
        None
    }
}

/// The token that begins at `i` (where no blank or comment begins) and the
/// index just past it, or the error that stops the scan there.
pub open spec fn lexeme(s: Seq<char>, i: int, line: nat) -> Result<(KindView, int), (nat, Seq<char>)> {
    let c = s[i];
    if c == '"' {
        let e = run_end(s, i + 1, RunClass::Quoted);
        if e < s.len() && s[e] == '"' {
            Ok((TokenKind::String(s.subrange(i + 1, e)), e + 1))
        } else {
            Err((line, unterminated_message(s.subrange(i + 1, e))))
        }
    } else if digit_char(c) {
        Ok((TokenKind::Number(literal_value(whole_digits(s, i), fraction_digits(s, i))), number_end(s, i)))
    } else if word_start(c) {
        let e = run_end(s, i + 1, RunClass::Word);
        Ok((word_kind(s.subrange(i, e)), e))
    } else {
        match symbol(s, i) {
            Some((k, n)) => Ok((k, i + n)),
            None => Err((line, unexpected_message(c))),
        }
    }
}

/// `ts` followed by what a scan gives, or that scan's error.
pub open spec fn after(ts: Seq<TokenView>, r: Result<Seq<TokenView>, (nat, Seq<char>)>) -> Result<
    Seq<TokenView>,
    (nat, Seq<char>),
> {
    match r {
        Ok(rest) => Ok(ts + rest),
        Err(e) => Err(e),
    }
}

/// The scan of `s` from index `i` on, at line `line`: the tokens up to and
/// including the end-of-input token, or the line and message of the first error.
pub open spec fn lex(s: Seq<char>, i: int, line: nat) -> Result<Seq<TokenView>, (nat, Seq<char>)>
    decreases s.len() - i,
    via lex_decreases
{
    if i < 0 || i >= s.len() {
        Ok(seq![(TokenKind::Eof, line)])
    } else if s[i] == '\n' {
        lex(s, i + 1, line + 1)
    } else if s[i] == ' ' || s[i] == '\r' || s[i] == '\t' {
        lex(s, i + 1, line)
    } else if s[i] == '/' && i + 1 < s.len() && s[i + 1] == '/' {
        lex(s, run_end(s, i + 2, RunClass::Line), line)
    } else {
        match lexeme(s, i, line) {
            Ok((k, j)) => after(seq![(k, line)], lex(s, j, line)),
            Err(e) => Err(e),
        }
    }
}

pub proof fn lemma_run_end(s: Seq<char>, i: int, class: RunClass)
    requires
        0 <= i <= s.len(),
    ensures
        i <= run_end(s, i, class) <= s.len(),
        forall|k: int| i <= k < run_end(s, i, class) ==> in_class(#[trigger] s[k], class),
        run_end(s, i, class) < s.len() ==> !in_class(s[run_end(s, i, class)], class),
    decreases s.len() - i,
{
    if i < s.len() && in_class(s[i], class) {
        lemma_run_end(s, i + 1, class);
    }
}

pub proof fn lemma_lexeme_end(s: Seq<char>, i: int, line: nat)
    requires
        0 <= i < s.len(),
    ensures
        lexeme(s, i, line) matches Ok((_, j)) ==> i < j <= s.len(),
{
    lemma_run_end(s, i, RunClass::Digit);
    lemma_run_end(s, i + 1, RunClass::Quoted);
    lemma_run_end(s, i + 1, RunClass::Word);
    let e = run_end(s, i, RunClass::Digit);
    if has_fraction(s, i) {
        lemma_run_end(s, e + 1, RunClass::Digit);
    }
}

#[via_fn]
proof fn lex_decreases(s: Seq<char>, i: int, line: nat) {
    if 0 <= i < s.len() {
        if s[i] == '/' && i + 1 < s.len() && s[i + 1] == '/' {
            lemma_run_end(s, i + 2, RunClass::Line);
        }
        lemma_lexeme_end(s, i, line);
    }
}


/// The tokens as contracts see them.
pub open spec fn views(ts: Seq<Token>) -> Seq<TokenView> {
    ts.map_values(|t: Token| t@)
}

pub proof fn lemma_digits_prefix(a: Seq<char>, b: Seq<char>)
    requires
        forall|k: int| 0 <= k < a.len() ==> digit_char(#[trigger] a[k]),
        forall|k: int| 0 <= k < b.len() ==> digit_char(#[trigger] b[k]),
    ensures
        0 <= digits_value(a) <= digits_value(a + b),
    decreases a.len() + b.len(),
{
    if b.len() == 0 {
        assert(a + b == a);
        if a.len() > 0 {
            lemma_digits_prefix(a.drop_last(), seq![]);
            assert(a.drop_last() + seq![] == a.drop_last());
        }
    } else {
        lemma_digits_prefix(a, b.drop_last());
        assert((a + b).drop_last() == a + b.drop_last());
        assert((a + b).last() == b.last());
    }
}

fn is_digit_char(c: char) -> (r: bool)
    ensures
        r == digit_char(c),
{
    '0' <= c && c <= '9'
}

fn is_word_start(c: char) -> (r: bool)
    ensures
        r == word_start(c),
{
    ('a' <= c && c <= 'z') || ('A' <= c && c <= 'Z') || c == '_'
}

fn is_in_class(c: char, class: RunClass) -> (r: bool)
    ensures
        r == in_class(c, class),
{
    match class {
        RunClass::Digit => is_digit_char(c),
        RunClass::Word => is_word_start(c) || is_digit_char(c),
        RunClass::Line => c != '\n',
        RunClass::Quoted => c != '\n' && c != '"',
    }
}

/// The end of the run of `class` characters of `cs` that starts at `i`.
fn scan_run(cs: &Vec<char>, i: usize, class: RunClass) -> (j: usize)
    requires
        i <= cs.len(),
    ensures
        j == run_end(cs@, i as int, class),
{
    let mut j = i;
    while j < cs.len() && is_in_class(cs[j], class)
        invariant
            i <= j <= cs.len(),
            run_end(cs@, i as int, class) == run_end(cs@, j as int, class),
        decreases cs.len() - j,
    {
        j = j + 1;
    }
    j
}

/// The characters of `s`, one by one.
fn chars_of(s: &str) -> (cs: Vec<char>)
    ensures
        cs@ == s@,
{
    let n = s.unicode_len();
    let mut cs: Vec<char> = Vec::new();
    let mut i: usize = 0;
    while i < n
        invariant
            n == s@.len(),
            i <= n,
            cs@ == s@.take(i as int),
        decreases n - i,
    {
        cs.push(s.get_char(i));
        assert(s@.take(i + 1) == s@.take(i as int).push(s@[i as int]));
        i = i + 1;
    }
    assert(s@.take(n as int) == s@);
    cs
}

/// The text of `s` from `i` to `j`.
fn text(s: &str, i: usize, j: usize) -> (r: String)
    requires
        i <= j <= s@.len(),
    ensures
        r@ == s@.subrange(i as int, j as int),
{
    String::from_str(s.substring_char(i, j))
}

/// Reads the number literal that begins at `i`: its value and its end.
fn scan_number(cs: &Vec<char>, i: usize) -> (r: (Number, usize))
    requires
        i < cs.len() < usize::MAX,
        digit_char(cs@[i as int]),
    ensures
        r.1 == number_end(cs@, i as int),
        i < r.1 <= cs.len(),
        r.0 == literal_value(whole_digits(cs@, i as int), fraction_digits(cs@, i as int)),
{
    let ghost s = cs@;
    let e = scan_run(cs, i, RunClass::Digit);
    proof {
        lemma_run_end(s, i as int, RunClass::Digit);
    }
    let frac = e + 1 < cs.len() && cs[e] == '.' && is_digit_char(cs[e + 1]);
    let end = if frac { scan_run(cs, e + 1, RunClass::Digit) } else { e };
    proof {
        if frac {
            lemma_run_end(s, e + 1, RunClass::Digit);
        }
        if e == i {
            assert(digit_char(s[e as int]));
        }
    }
    let ghost w = whole_digits(s, i as int);
    let ghost f = fraction_digits(s, i as int);
    // Where the fraction digits start, and how many there are.
    let fs: usize = if frac { e + 1 } else { end };
    let fl: usize = end - fs;
    assert(f.len() == fl);
    assert forall|q: int| 0 <= q < fl implies #[trigger] f[q] == s[fs + q] && digit_char(f[q]) by {
        assert(f[q] == s[fs + q]);
    }
    assert forall|q: int| 0 <= q < w.len() implies digit_char(#[trigger] w[q]) by {
        assert(w[q] == s[i + q]);
    }
    let mut acc: i64 = 0;
    let mut k: usize = i;
    let ghost seen: Seq<char> = seq![];
    // The digits before the point.
    while k < e
        invariant
            i <= k <= e <= cs.len() < usize::MAX,
            i < end <= cs.len(),
            end == number_end(s, i as int),
            e == run_end(s, i as int, RunClass::Digit),
            s == cs@,
            w == s.subrange(i as int, e as int),
            forall|q: int| 0 <= q < w.len() ==> digit_char(#[trigger] w[q]),
            seen == s.subrange(i as int, k as int),
            acc == digits_value(seen),
        decreases e - k,
    {
        let c = cs[k];
        assert(w[k - i] == s[k as int]);
        let dig = (c as u32 - '0' as u32) as i64;
        assert(seen.push(c).drop_last() == seen);
        assert(seen.push(c) == w.subrange(0, k - i + 1));
        assert forall|q: int| 0 <= q < seen.len() + 1 implies digit_char(#[trigger] seen.push(c)[q]) by {
            assert(seen.push(c)[q] == w[q]);
        }
        proof {
            lemma_digits_prefix(seen, seq![]);
            assert(seen + seq![] == seen);
        }
        let ghost rest = w.subrange(k - i + 1, w.len() as int);
        let next = match acc.checked_mul(10) {
            Some(t) => t.checked_add(dig),
            None => None,
        };
        match next {
            Some(v) => {
                acc = v;
            },
            None => {
                proof {
                    assert forall|q: int| 0 <= q < rest.len() implies digit_char(#[trigger] rest[q]) by {
                        assert(rest[q] == w[k - i + 1 + q]);
                    }
                    lemma_digits_prefix(seen.push(c), rest);
                    assert(seen.push(c) + rest == w);
                    assert(digits_value(seen.push(c)) == 10 * acc + dig);
                    assert(f.take(0) == Seq::<char>::empty());
                    assert(w + f.take(0) == w);
                    lemma_digits_prefix(w, seq![]);
                }
                return (Number { num: 1, den: 0 }, end);
            },
        }
        proof {
            seen = seen.push(c);
        }
        k = k + 1;
    }
    assert(seen == w);
    assert(f.take(0) == Seq::<char>::empty());
    assert(w + f.take(0) == w);
    proof {
        lemma_digits_prefix(w, seq![]);
        assert(w + seq![] == w);
    }
    // The whole part, rounded by the first fraction digit.
    let up0: i64 = if fl > 0 && cs[fs] >= '5' { 1 } else { 0 };
    if acc == i64::MAX && up0 == 1 {
        return (Number { num: 1, den: 0 }, end);
    }
    let mut places: usize = 0;
    let mut den: i64 = 1;
    let mut up: i64 = up0;
    while places < MAX_PLACES as usize && places < fl
        invariant
            s == cs@,
            fs + fl <= cs.len(),
            f.len() == fl,
            forall|q: int| 0 <= q < fl ==> #[trigger] f[q] == s[fs + q] && digit_char(f[q]),
            forall|q: int| 0 <= q < w.len() ==> digit_char(#[trigger] w[q]),
            places <= fl,
            places <= MAX_PLACES,
            den == pow10(places as nat),
            acc == digits_value(w + f.take(places as int)),
            0 <= acc,
            up == if places < fl && f[places as int] >= '5' { 1int } else { 0int },
            acc + up <= i64::MAX,
            rounded_prefix(w, f, places as nat) == acc + up,
            literal_places(w, f, 0) == literal_places(w, f, places as nat),
            rounded_prefix(w, f, 0) <= i64::MAX,
        ensures
            places <= MAX_PLACES,
            den == pow10(places as nat),
            rounded_prefix(w, f, places as nat) == acc + up,
            acc + up <= i64::MAX,
            0 <= acc,
            literal_places(w, f, 0) == places,
        decreases fl - places,
    {
        let c = cs[fs + places];
        let dig = (c as u32 - '0' as u32) as i128;
        let next = 10 * (acc as i128) + dig;
        let next_up: i128 = if places + 1 < fl && cs[fs + places + 1] >= '5' { 1 } else { 0 };
        let ghost p1 = w + f.take(places + 1);
        proof {
            assert(p1.drop_last() == w + f.take(places as int));
            assert(p1.last() == f[places as int]);
        }
        if next + next_up > i64::MAX as i128 {
            assert(rounded_prefix(w, f, (places + 1) as nat) == next + next_up);
            break;
        }
        proof {
            lemma_pow10_places((places + 1) as nat);
        }
        acc = next as i64;
        up = next_up as i64;
        den = den * 10;
        places = places + 1;
    }
    proof {
        lemma_pow10_places(places as nat);
    }
    (Number { num: acc + up, den }, end)
}

/// Scans source text into tokens, ending with one end-of-input token, or
/// returns the first scan error with its line.
pub fn scan_tokens(source: &str) -> (r: Result<Vec<Token>, Diagnostic>)
    requires
        source@.len() < usize::MAX,
    ensures
        match r {
            Ok(ts) => {
                &&& lex(source@, 0, 1) == ScanView::Ok(views(ts@))
                &&& ends_with_one_eof(views(ts@))
                &&& forall|k: int| 0 <= k < ts.len() ==> #[trigger] begins_from(source@, views(ts@), k, 0)
            },
            Err(Diagnostic::LoxError { line, message }) => lex(source@, 0, 1) == ScanView::Err((line as nat, message@)),
            Err(_) => false,
        },
{
    let cs = chars_of(source);
    let ghost s = cs@;
    let n = cs.len();
    let mut tokens: Vec<Token> = Vec::new();
    let mut line: usize = 1;
    let mut i: usize = 0;
    while i < n
        invariant
            s == cs@,
            s == source@,
            n == cs.len(),
            n < usize::MAX,
            i <= n,
            1 <= line <= i + 1,
            lex(s, 0, 1) == after(views(tokens@), lex(s, i as int, line as nat)),
        decreases n - i,
    {
        let c = cs[i];
        let ghost before = views(tokens@);
        if c == '\n' {
            line = line + 1;
            i = i + 1;
        } else if c == ' ' || c == '\r' || c == '\t' {
            i = i + 1;
        } else if c == '/' && i + 1 < n && cs[i + 1] == '/' {
            proof {
                lemma_run_end(s, i + 2, RunClass::Line);
            }
            i = scan_run(&cs, i + 2, RunClass::Line);
        } else {
            proof {
                lemma_lexeme_end(s, i as int, line as nat);
            }
            let kind: TokenType;
            let j: usize;
            if c == '"' {
                let e = scan_run(&cs, i + 1, RunClass::Quoted);
                proof {
                    lemma_run_end(s, i + 1, RunClass::Quoted);
                }
                if e < n && cs[e] == '"' {
                    kind = TokenType::String(text(source, i + 1, e));
                    j = e + 1;
                } else {
                    let mut message = String::from_str("Unterminated string literal: \"");
                    let content = text(source, i + 1, e);
                    message.append(content.as_str());
                    message.append("\"");
                    return Err(Diagnostic::LoxError { line, message });
                }
            } else if is_digit_char(c) {
                let (value, e) = scan_number(&cs, i);
                kind = TokenType::Number(value);
                j = e;
            } else if is_word_start(c) {
                let e = scan_run(&cs, i + 1, RunClass::Word);
                proof {
                    lemma_run_end(s, i + 1, RunClass::Word);
                }
                kind = match keyword(cs.as_slice(), i, e) {
                    Some(k) => k,
                    None => TokenType::Identifier(text(source, i, e)),
                };
                j = e;
            } else {
                let eq_next = i + 1 < n && cs[i + 1] == '=';
                let (k, len): (TokenType, usize) = if c == '(' {
                    (TokenType::LeftParen, 1)
                } else if c == ')' {
                    (TokenType::RightParen, 1)
                } else if c == '{' {
                    (TokenType::LeftBrace, 1)
                } else if c == '}' {
                    (TokenType::RightBrace, 1)
                } else if c == ',' {
                    (TokenType::Comma, 1)
                } else if c == '.' {
                    (TokenType::Dot, 1)
                } else if c == '-' {
                    (TokenType::Minus, 1)
                } else if c == '+' {
                    (TokenType::Plus, 1)
                } else if c == ';' {
                    (TokenType::Semicolon, 1)
                } else if c == '*' {
                    (TokenType::Star, 1)
                } else if c == '/' {
                    (TokenType::Slash, 1)
                } else if c == '!' {
                    if eq_next { (TokenType::BangEqual, 2) } else { (TokenType::Bang, 1) }
                } else if c == '=' {
                    if eq_next { (TokenType::EqualEqual, 2) } else { (TokenType::Equal, 1) }
                } else if c == '<' {
                    if eq_next { (TokenType::LessEqual, 2) } else { (TokenType::Less, 1) }
                } else if c == '>' {
                    if eq_next { (TokenType::GreaterEqual, 2) } else { (TokenType::Greater, 1) }
                } else {
                    let mut message = String::from_str("Unexpected character: '");
                    let ch = text(source, i, i + 1);
                    assert(ch@ == seq![c]);
                    message.append(ch.as_str());
                    message.append("'");
                    return Err(Diagnostic::LoxError { line, message });
                };
                kind = k;
                j = i + len;
            }
            assert(lexeme(s, i as int, line as nat) == Ok::<(KindView, int), (nat, Seq<char>)>((kind@, j as int)));
            let tok = Token { token_type: kind, line };
            tokens.push(tok);
            proof {
                assert(views(tokens@) == before + seq![(kind@, line as nat)]);
                let rest = lex(s, j as int, line as nat);
                match rest {
                    Ok(ts) => {
                        assert(before + (seq![(kind@, line as nat)] + ts) == (before + seq![(kind@, line as nat)]) + ts);
                    },
                    Err(_) => {},
                }
            }
            i = j;
        }
    }
    let ghost before = views(tokens@);
    tokens.push(Token { token_type: TokenType::Eof, line });
    assert(views(tokens@) == before + seq![(TokenKind::<Seq<char>>::Eof, line as nat)]);
    proof {
        lemma_scan_ends_with_one_eof(s);
        lemma_scan_lines(s);
    }
    Ok(tokens)
}

/// Whether the last of `ts` is the end of input and no other is.
pub open spec fn ends_with_one_eof(ts: Seq<TokenView>) -> bool {
    &&& ts.len() >= 1
    &&& ts.last().0 == TokenKind::<Seq<char>>::Eof
    &&& forall|k: int| 0 <= k < ts.len() - 1 ==> #[trigger] ts[k].0 != TokenKind::<Seq<char>>::Eof
}

/// The number of newline characters in `t`.
pub open spec fn newlines(t: Seq<char>) -> nat
    decreases t.len(),
{
    if t.len() == 0 {
        0
    } else {
        newlines(t.drop_last()) + if t.last() == '\n' { 1nat } else { 0nat }
    }
}

/// Whether the `k`-th token of `ts`, scanned from `s`, begins at index `p`:
/// the scan from `p` on gives the tokens from the `k`-th on, and the token's
/// line is one more than the number of newlines before `p`.
pub open spec fn token_starts_at(s: Seq<char>, ts: Seq<TokenView>, k: int, p: int) -> bool {
    &&& 0 <= p <= s.len()
    &&& ts[k].1 == 1 + newlines(s.take(p))
    &&& lex(s, p, ts[k].1) == ScanView::Ok(ts.skip(k))
}

/// Whether the `k`-th token of `ts` begins at some index of `s` at or after `i`.
pub open spec fn begins_from(s: Seq<char>, ts: Seq<TokenView>, k: int, i: int) -> bool {
    exists|p: int| i <= p && #[trigger] token_starts_at(s, ts, k, p)
}

proof fn lemma_lexeme_not_eof(s: Seq<char>, i: int, line: nat)
    requires
        0 <= i < s.len(),
    ensures
        lexeme(s, i, line) matches Ok((k, _)) ==> k != TokenKind::<Seq<char>>::Eof,
{
}

proof fn lemma_lex_ends_with_eof(s: Seq<char>, i: int, line: nat)
    requires
        0 <= i <= s.len(),
    ensures
        lex(s, i, line) matches Ok(ts) ==> {
            &&& ts.len() >= 1
            &&& ts.last().0 == TokenKind::<Seq<char>>::Eof
            &&& forall|k: int| 0 <= k < ts.len() - 1 ==> ts[k].0 != TokenKind::<Seq<char>>::Eof
        },
    decreases s.len() - i,
{
    if i < s.len() {
        if s[i] == '\n' || s[i] == ' ' || s[i] == '\r' || s[i] == '\t' {
            lemma_lex_ends_with_eof(s, i + 1, if s[i] == '\n' { line + 1 } else { line });
        } else if s[i] == '/' && i + 1 < s.len() && s[i + 1] == '/' {
            lemma_run_end(s, i + 2, RunClass::Line);
            lemma_lex_ends_with_eof(s, run_end(s, i + 2, RunClass::Line), line);
        } else {
            lemma_lexeme_end(s, i, line);
            lemma_lexeme_not_eof(s, i, line);
            if let Ok((k, j)) = lexeme(s, i, line) {
                lemma_lex_ends_with_eof(s, j, line);
                if let Ok(rest) = lex(s, j, line) {
                    let ts = seq![(k, line)] + rest;
                    assert forall|q: int| 0 <= q < ts.len() - 1 implies ts[q].0
                        != TokenKind::<Seq<char>>::Eof by {
                        if q > 0 {
                            assert(ts[q] == rest[q - 1]);
                        }
                    }
                    assert(ts.last() == rest.last());
                }
            }
        }
    }
}

/// A scan that succeeds gives at least one token, the last is the end of
/// input, and no other token is.
pub proof fn lemma_scan_ends_with_one_eof(s: Seq<char>)
    ensures
        lex(s, 0, 1) matches Ok(ts) ==> ends_with_one_eof(ts),
{
    lemma_lex_ends_with_eof(s, 0, 1);
}

proof fn lemma_newlines_step(s: Seq<char>, i: int)
    requires
        0 <= i < s.len(),
    ensures
        newlines(s.take(i + 1)) == newlines(s.take(i)) + if s[i] == '\n' { 1nat } else { 0nat },
{
    assert(s.take(i + 1).drop_last() == s.take(i));
}

proof fn lemma_newlines_none(s: Seq<char>, i: int, j: int)
    requires
        0 <= i <= j <= s.len(),
        forall|q: int| i <= q < j ==> s[q] != '\n',
    ensures
        newlines(s.take(j)) == newlines(s.take(i)),
    decreases j - i,
{
    if j > i {
        lemma_newlines_none(s, i, j - 1);
        lemma_newlines_step(s, j - 1);
    }
}

proof fn lemma_lexeme_no_newline(s: Seq<char>, i: int, line: nat)
    requires
        0 <= i < s.len(),
        s[i] != '\n',
    ensures
        lexeme(s, i, line) matches Ok((_, j)) ==> forall|q: int| i <= q < j ==> s[q] != '\n',
{
    lemma_run_end(s, i, RunClass::Digit);
    lemma_run_end(s, i + 1, RunClass::Quoted);
    lemma_run_end(s, i + 1, RunClass::Word);
    let e = run_end(s, i, RunClass::Digit);
    if has_fraction(s, i) {
        lemma_run_end(s, e + 1, RunClass::Digit);
    }
}

proof fn lemma_begins_from_earlier(s: Seq<char>, ts: Seq<TokenView>, j: int, i: int)
    requires
        i <= j,
        forall|k: int| 0 <= k < ts.len() ==> #[trigger] begins_from(s, ts, k, j),
    ensures
        forall|k: int| 0 <= k < ts.len() ==> #[trigger] begins_from(s, ts, k, i),
{
    assert forall|k: int| 0 <= k < ts.len() implies #[trigger] begins_from(s, ts, k, i) by {
        assert(begins_from(s, ts, k, j));
        let p = choose|p: int| j <= p && #[trigger] token_starts_at(s, ts, k, p);
        assert(token_starts_at(s, ts, k, p));
    }
}

proof fn lemma_lex_lines(s: Seq<char>, i: int, line: nat)
    requires
        0 <= i <= s.len(),
        line == 1 + newlines(s.take(i)),
    ensures
        lex(s, i, line) matches Ok(ts) ==> forall|k: int|
            0 <= k < ts.len() ==> #[trigger] begins_from(s, ts, k, i),
    decreases s.len() - i,
{
    if let Ok(ts) = lex(s, i, line) {
        if i >= s.len() {
            assert forall|k: int| 0 <= k < ts.len() implies #[trigger] begins_from(s, ts, k, i) by {
                assert(ts.skip(0) == ts);
                assert(token_starts_at(s, ts, k, i));
            }
        } else if s[i] == '\n' || s[i] == ' ' || s[i] == '\r' || s[i] == '\t' {
            lemma_newlines_step(s, i);
            lemma_lex_lines(s, i + 1, if s[i] == '\n' { line + 1 } else { line });
            lemma_begins_from_earlier(s, ts, i + 1, i);
        } else if s[i] == '/' && i + 1 < s.len() && s[i + 1] == '/' {
            let e = run_end(s, i + 2, RunClass::Line);
            lemma_run_end(s, i + 2, RunClass::Line);
            lemma_newlines_none(s, i, e);
            lemma_lex_lines(s, e, line);
            lemma_begins_from_earlier(s, ts, e, i);
        } else {
            lemma_lexeme_end(s, i, line);
            lemma_lexeme_no_newline(s, i, line);
            if let Ok((kind, j)) = lexeme(s, i, line) {
                lemma_newlines_none(s, i, j);
                lemma_lex_lines(s, j, line);
                if let Ok(rest) = lex(s, j, line) {
                    assert(ts == seq![(kind, line)] + rest);
                    assert forall|k: int| 0 <= k < ts.len() implies #[trigger] begins_from(s, ts, k, i) by {
                        if k == 0 {
                            assert(ts.skip(0) == ts);
                            assert(token_starts_at(s, ts, 0, i));
                        } else {
                            assert(begins_from(s, rest, k - 1, j));
                            let p = choose|p: int| j <= p && #[trigger] token_starts_at(s, rest, k - 1, p);
                            assert(ts.skip(k) == rest.skip(k - 1));
                            assert(ts[k] == rest[k - 1]);
                            assert(token_starts_at(s, ts, k, p));
                        }
                    }
                }
            }
        }
    }
}

/// Lines are counted from one: every token of a successful scan begins at an
/// index of the source after which the scan gives exactly that token and the
/// rest, and its line is one more than the number of newlines before it.
pub proof fn lemma_scan_lines(s: Seq<char>)
    ensures
        lex(s, 0, 1) matches Ok(ts) ==> forall|k: int|
            0 <= k < ts.len() ==> #[trigger] begins_from(s, ts, k, 0),
{
    assert(s.take(0).len() == 0);
    lemma_lex_lines(s, 0, 1);
}

} // verus!
