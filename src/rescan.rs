//! Scanning the text of scanned tokens again gives the same tokens.
use vstd::prelude::*;

use crate::lexer::{
    digit_char, digits_value, fraction_digits, has_fraction, in_class, lemma_run_end, lex, lexeme,
    literal_places, literal_value, number_end, rounded_prefix, run_end, whole_digits, word_start,
    RunClass, ScanView,
};
use crate::number::{
    decimal, digit_of, fraction, lemma_pow10_mono, pow10, render, same, Number, FRACTION_DIGITS,
    MAX_PLACES,
};
use crate::token::{canonical, keyword_of, KindView, TokenKind, TokenView};

verus! {

proof fn lemma_digit_of(d: int)
    requires
        0 <= d < 10,
    ensures
        digit_char(digit_of(d)),
        digit_of(d) as int - '0' as int == d,
{
}

proof fn lemma_one_digit(c: char)
    ensures
        digits_value(seq![c]) == c as int - '0' as int,
{
    assert(seq![c].drop_last() =~= Seq::<char>::empty());
    assert(digits_value(Seq::<char>::empty()) == 0);
}

proof fn lemma_decimal(q: nat)
    ensures
        decimal(q).len() >= 1,
        forall|k: int| 0 <= k < decimal(q).len() ==> digit_char(#[trigger] decimal(q)[k]),
        digits_value(decimal(q)) == q,
    decreases q,
{
    if q >= 10 {
        lemma_decimal(q / 10);
        lemma_digit_of((q % 10) as int);
        let d = decimal(q);
        assert(d.drop_last() == decimal(q / 10));
        assert(d.last() == digit_of((q % 10) as int));
        assert(q == 10 * (q / 10) + q % 10);
        assert forall|k: int| 0 <= k < d.len() implies digit_char(#[trigger] d[k]) by {
            if k < d.len() - 1 {
                assert(d[k] == decimal(q / 10)[k]);
            }
        }
    } else {
        lemma_digit_of(q as int);
        lemma_one_digit(digit_of(q as int));
    }
}

proof fn lemma_digits_concat(a: Seq<char>, b: Seq<char>)
    ensures
        digits_value(a + b) == digits_value(a) * pow10(b.len()) + digits_value(b),
    decreases b.len(),
{
    if b.len() == 0 {
        assert(a + b == a);
    } else {
        lemma_digits_concat(a, b.drop_last());
        assert((a + b).drop_last() == a + b.drop_last());
        assert((a + b).last() == b.last());
        let x = digits_value(a);
        let y = digits_value(b.drop_last());
        let p = pow10((b.len() - 1) as nat);
        assert(10 * (x * p + y) == x * (10 * p) + 10 * y) by (nonlinear_arith);
    }
}

/// The remainder left after the digits that `fraction(r, d, k)` shows.
pub open spec fn fraction_rest(r: nat, d: nat, k: nat) -> nat
    decreases k,
{
    if k == 0 || r == 0 || d == 0 {
        r
    } else {
        fraction_rest((10 * r) % d, d, (k - 1) as nat)
    }
}

proof fn lemma_fraction(r: nat, d: nat, k: nat)
    requires
        r < d,
    ensures
        ({
            let f = fraction(r, d, k);
            &&& forall|q: int| 0 <= q < f.len() ==> digit_char(#[trigger] f[q])
            &&& digits_value(f) * d + fraction_rest(r, d, k) == r * pow10(f.len())
            &&& f.len() <= k
            &&& fraction_rest(r, d, k) < d
            &&& (r > 0 && k > 0 ==> f.len() >= 1)
        }),
    decreases k,
{
    if k > 0 && r > 0 {
        let r2 = (10 * r) % d;
        let x = (10 * r) / d;
        lemma_fraction(r2, d, (k - 1) as nat);
        assert(x < 10) by (nonlinear_arith)
            requires
                r < d,
                x == (10 * r) / d,
                d > 0,
        ;
        lemma_digit_of(x as int);
        let f2 = fraction(r2, d, (k - 1) as nat);
        let f = fraction(r, d, k);
        assert(f == seq![digit_of(x as int)] + f2);
        assert forall|q: int| 0 <= q < f.len() implies digit_char(#[trigger] f[q]) by {
            if q > 0 {
                assert(f[q] == f2[q - 1]);
            }
        }
        lemma_digits_concat(seq![digit_of(x as int)], f2);
        lemma_one_digit(digit_of(x as int));
        assert(digits_value(seq![digit_of(x as int)]) == x);
        let p = pow10(f2.len());
        let fr = fraction_rest(r, d, k);
        assert(fr == fraction_rest(r2, d, (k - 1) as nat));
        assert(digits_value(f2) * d + fr == r2 * p);
        vstd::arithmetic::div_mod::lemma_fundamental_div_mod((10 * r) as int, d as int);
        assert(10 * r == x * d + r2);
        assert(digits_value(f) == x * p + digits_value(f2));
        assert((x * p + digits_value(f2)) * d + fr == r * (10 * p)) by (nonlinear_arith)
            requires
                digits_value(f2) * d + fr == r2 * p,
                10 * r == x * d + r2,
        ;
    }
}

proof fn lemma_fraction_stops(r: nat, d: nat, k: nat, j: nat)
    requires
        r < d,
        j <= k,
        (r * pow10(j)) % (d as int) == 0,
    ensures
        fraction_rest(r, d, k) == 0,
        fraction(r, d, k).len() <= j,
    decreases j,
{
    if j == 0 {
        vstd::arithmetic::div_mod::lemma_small_mod(r, d);
    } else if r > 0 {
        let r2 = (10 * r) % d;
        let p = pow10((j - 1) as nat);
        assert(pow10(j) == 10 * p);
        assert((r2 * p) % (d as int) == 0) by {
            vstd::arithmetic::div_mod::lemma_mul_mod_noop_left((10 * r) as int, p, d as int);
            assert(r * pow10(j) == (10 * r) * p) by (nonlinear_arith)
                requires
                    pow10(j) == 10 * p,
            ;
        }
        lemma_fraction_stops(r2, d, (k - 1) as nat, (j - 1) as nat);
    }
}

/// A token kind as the scanner makes it: names are words and not reserved,
/// strings hold no quote or newline, numbers are infinity or decimals with
/// at most `MAX_PLACES` digits after the point.
pub open spec fn scanned_kind(k: KindView) -> bool {
    match k {
        TokenKind::Identifier(w) => {
            &&& w.len() > 0
            &&& word_start(w[0])
            &&& forall|q: int| 0 <= q < w.len() ==> in_class(#[trigger] w[q], RunClass::Word)
            &&& keyword_of(w) is None
        },
        TokenKind::String(c) => forall|q: int|
            0 <= q < c.len() ==> in_class(#[trigger] c[q], RunClass::Quoted),
        TokenKind::Number(n) => n.num >= 0 && (n.den == 0 || exists|l: nat|
            l <= MAX_PLACES && n.den == #[trigger] pow10(l)),
        _ => true,
    }
}

proof fn lemma_run_end_at(s: Seq<char>, i: int, j: int, class: RunClass)
    requires
        0 <= i <= j < s.len(),
        forall|q: int| i <= q < j ==> in_class(#[trigger] s[q], class),
        !in_class(s[j], class),
    ensures
        run_end(s, i, class) == j,
    decreases j - i,
{
    if i < j {
        lemma_run_end_at(s, i + 1, j, class);
    }
}

/// The characters of `s` from `i` on are `c` and then a space.
pub open spec fn spelled_at(s: Seq<char>, i: int, c: Seq<char>) -> bool {
    &&& 0 <= i
    &&& i + c.len() + 1 <= s.len()
    &&& s.subrange(i, i + c.len() + 1) == c + seq![' ']
}

proof fn lemma_spelled_at(s: Seq<char>, i: int, c: Seq<char>)
    requires
        spelled_at(s, i, c),
    ensures
        forall|k: int| 0 <= k < c.len() ==> s[i + k] == #[trigger] c[k],
        s[i + c.len()] == ' ',
{
    assert forall|k: int| 0 <= k < c.len() implies s[i + k] == #[trigger] c[k] by {
        assert(s.subrange(i, i + c.len() + 1)[k] == s[i + k]);
        assert((c + seq![' '])[k] == c[k]);
    }
    assert(s.subrange(i, i + c.len() + 1)[c.len() as int] == s[i + c.len()]);
    assert((c + seq![' '])[c.len() as int] == ' ');
}

proof fn lemma_digits_nonneg(a: Seq<char>)
    requires
        forall|k: int| 0 <= k < a.len() ==> digit_char(#[trigger] a[k]),
    ensures
        0 <= digits_value(a),
{
    crate::lexer::lemma_digits_prefix(a, seq![]);
    assert(a + seq![] == a);
}

/// Rounding a prefix of the digits never gives more than all of them.
proof fn lemma_rounded_prefix_below(w: Seq<char>, f: Seq<char>, j: nat)
    requires
        forall|k: int| 0 <= k < w.len() ==> digit_char(#[trigger] w[k]),
        forall|k: int| 0 <= k < f.len() ==> digit_char(#[trigger] f[k]),
        j <= f.len(),
    ensures
        0 <= rounded_prefix(w, f, j) <= digits_value(w + f),
{
    let a = w + f.take(j as int);
    let b = f.skip(j as int);
    assert(a + b == w + f);
    assert forall|k: int| 0 <= k < a.len() implies digit_char(#[trigger] a[k]) by {
        if k >= w.len() {
            assert(a[k] == f[k - w.len()]);
        }
    }
    assert forall|k: int| 0 <= k < b.len() implies digit_char(#[trigger] b[k]) by {
        assert(b[k] == f[j + k]);
    }
    crate::lexer::lemma_digits_prefix(a, b);
    if j < f.len() {
        let a1 = w + f.take(j + 1int);
        let b1 = f.skip(j + 1int);
        assert(a1 + b1 == w + f);
        assert(a1.drop_last() == a);
        assert(a1.last() == f[j as int]);
        assert forall|k: int| 0 <= k < a1.len() implies digit_char(#[trigger] a1[k]) by {
            if k >= w.len() {
                assert(a1[k] == f[k - w.len()]);
            }
        }
        assert forall|k: int| 0 <= k < b1.len() implies digit_char(#[trigger] b1[k]) by {
            assert(b1[k] == f[j + 1 + k]);
        }
        crate::lexer::lemma_digits_prefix(a1, b1);
    }
}

proof fn lemma_literal_places_full(w: Seq<char>, f: Seq<char>, k: nat)
    requires
        forall|q: int| 0 <= q < w.len() ==> digit_char(#[trigger] w[q]),
        forall|q: int| 0 <= q < f.len() ==> digit_char(#[trigger] f[q]),
        k <= f.len() <= MAX_PLACES,
        digits_value(w + f) <= i64::MAX,
    ensures
        literal_places(w, f, k) == f.len(),
    decreases f.len() - k,
{
    if k < f.len() {
        lemma_rounded_prefix_below(w, f, k + 1);
        lemma_literal_places_full(w, f, k + 1);
    }
}

/// A literal whose digits fit, with at most `MAX_PLACES` after the point,
/// stands for its exact value.
proof fn lemma_literal_exact(w: Seq<char>, f: Seq<char>)
    requires
        forall|q: int| 0 <= q < w.len() ==> digit_char(#[trigger] w[q]),
        forall|q: int| 0 <= q < f.len() ==> digit_char(#[trigger] f[q]),
        f.len() <= MAX_PLACES,
        digits_value(w + f) <= i64::MAX,
    ensures
        literal_value(w, f) == (Number {
            num: digits_value(w + f) as i64,
            den: pow10(f.len()) as i64,
        }),
{
    lemma_rounded_prefix_below(w, f, 0);
    lemma_literal_places_full(w, f, 0);
    assert(f.take(f.len() as int) == f);
}

proof fn lemma_number_rescan(s: Seq<char>, i: int, n: Number, line: nat)
    requires
        spelled_at(s, i, render(n)),
        scanned_kind(TokenKind::Number(n)),
        n.is_finite(),
    ensures
        render(n).len() >= 1,
        digit_char(s[i]),
        lexeme(s, i, line) matches Ok((TokenKind::Number(n2), j)) && j == i + render(n).len()
            && same(n, n2),
{
    let l = choose|l: nat| l <= MAX_PLACES && n.den == #[trigger] pow10(l);
    lemma_pow10_mono(0, l);
    let m = n.num as nat;
    let d = n.den as nat;
    let q = m / d;
    let r = m % d;
    vstd::arithmetic::div_mod::lemma_fundamental_div_mod(m as int, d as int);
    assert(q <= m) by (nonlinear_arith)
        requires
            q == m / d,
            d >= 1,
    ;
    let c = render(n);
    let dd = decimal(q);
    lemma_decimal(q);
    lemma_spelled_at(s, i, c);
    assert(n.sign() >= 0);
    if r == 0 {
        assert(c == dd + Seq::<char>::empty());
        assert(c == dd);
        assert forall|k: int| i <= k < i + dd.len() implies in_class(#[trigger] s[k], RunClass::Digit) by {
            assert(s[i + (k - i)] == c[k - i]);
        }
        assert(digit_char(s[i])) by {
            assert(s[i + 0] == c[0]);
        }
        lemma_run_end_at(s, i, i + dd.len(), RunClass::Digit);
        assert(s.subrange(i, i + dd.len()) == dd);
        assert(whole_digits(s, i) == dd);
        assert(fraction_digits(s, i) == Seq::<char>::empty());
        assert(dd + Seq::<char>::empty().take(0) == dd);
        assert(rounded_prefix(dd, Seq::<char>::empty(), 0) == q);
        let n2 = Number { num: q as i64, den: 1 };
        assert(literal_value(dd, Seq::<char>::empty()) == n2);
        crate::number::lemma_pow10_places(l);
        crate::number::lemma_clean_ratio(n);
        crate::number::lemma_clean_ratio(n2);
        assert(m * 1 - q * d == 0);
        assert(same(n, n2));
    } else {
        let f = fraction(r, d, FRACTION_DIGITS as nat);
        lemma_fraction(r, d, FRACTION_DIGITS as nat);
        vstd::arithmetic::div_mod::lemma_mod_multiples_basic(r as int, d as int);
        assert((r * pow10(l)) % (d as int) == 0);
        lemma_fraction_stops(r, d, FRACTION_DIGITS as nat, l);
        let ff = f.len();
        lemma_pow10_mono(ff, l);
        assert(c == dd + (seq!['.'] + f));
        let e = i + dd.len();
        assert forall|k: int| i <= k < e implies in_class(#[trigger] s[k], RunClass::Digit) by {
            assert(s[i + (k - i)] == c[k - i]);
            assert(c[k - i] == dd[k - i]);
        }
        assert(s[i + 0] == c[0]);
        assert(c[0] == dd[0]);
        assert(s[e] == c[dd.len() as int]);
        assert(s[e] == '.');
        lemma_run_end_at(s, i, e, RunClass::Digit);
        assert forall|k: int| e + 1 <= k < e + 1 + ff implies in_class(#[trigger] s[k], RunClass::Digit) by {
            assert(s[i + (k - i)] == c[k - i]);
            assert(c[k - i] == f[k - e - 1]);
        }
        assert(s[e + 1] == c[dd.len() + 1int]);
        assert(s[e + 1 + ff] == ' ');
        lemma_run_end_at(s, e + 1, e + 1 + ff, RunClass::Digit);
        assert(has_fraction(s, i));
        assert(s.subrange(i, e) == dd);
        assert forall|k: int| 0 <= k < ff implies s.subrange(e + 1, e + 1 + ff)[k] == #[trigger] f[k] by {
            assert(s[i + (dd.len() + 1 + k)] == c[dd.len() + 1 + k]);
            assert(c[dd.len() + 1 + k] == f[k]);
        }
        assert(s.subrange(e + 1, e + 1 + ff) =~= f);
        assert(whole_digits(s, i) == dd);
        assert(fraction_digits(s, i) == f);
        lemma_digits_concat(dd, f);
        let p = pow10(ff);
        let m2 = q * p + digits_value(f);
        crate::lexer::lemma_digits_prefix(f, seq![]);
        assert(f + seq![] == f);
        assert(q * p >= 0) by (nonlinear_arith)
            requires
                p >= 1,
                q >= 0,
        ;
        assert(digits_value(f) * d == r * p);
        assert(m2 * d == m * p) by (nonlinear_arith)
            requires
                m2 == q * p + digits_value(f),
                digits_value(f) * d == r * p,
                m == q * d + r,
        ;
        assert(m2 <= m) by (nonlinear_arith)
            requires
                m2 * d == m * p,
                p <= d,
                d >= 1,
                m2 >= 0,
        ;
        let n2 = Number { num: m2 as i64, den: p as i64 };
        lemma_literal_exact(dd, f);
        crate::number::lemma_pow10_places(l);
        crate::number::lemma_pow10_places(ff);
        crate::number::lemma_clean_ratio(n);
        crate::number::lemma_clean_ratio(n2);
        assert(m * p - m2 * d == 0);
        assert(same(n, n2));
    }
}

/// Whether two token kinds agree, numbers by value.
pub open spec fn kind_match(a: KindView, b: KindView) -> bool {
    a == b || (a matches TokenKind::Number(x) && b matches TokenKind::Number(y) && same(x, y))
}

proof fn lemma_word_rescan(s: Seq<char>, i: int, w: Seq<char>, line: nat)
    requires
        spelled_at(s, i, w),
        w.len() > 0,
        word_start(w[0]),
        forall|q: int| 0 <= q < w.len() ==> in_class(#[trigger] w[q], RunClass::Word),
    ensures
        lexeme(s, i, line) == Ok::<(KindView, int), (nat, Seq<char>)>(
            (crate::token::word_kind(w), i + w.len()),
        ),
        word_start(s[i]),
{
    lemma_spelled_at(s, i, w);
    assert(s[i + 0] == w[0]);
    assert forall|k: int| i + 1 <= k < i + w.len() implies in_class(#[trigger] s[k], RunClass::Word) by {
        assert(s[i + (k - i)] == w[k - i]);
    }
    lemma_run_end_at(s, i + 1, i + w.len(), RunClass::Word);
    assert(s.subrange(i, i + w.len()) =~= w);
}

proof fn lemma_token_rescan(s: Seq<char>, i: int, k: KindView, line: nat)
    requires
        spelled_at(s, i, canonical(k)),
        scanned_kind(k),
        k != TokenKind::<Seq<char>>::Eof,
        k matches TokenKind::Number(n) ==> n.is_finite(),
    ensures
        canonical(k).len() >= 1,
        s[i] != '\n' && s[i] != ' ' && s[i] != '\r' && s[i] != '\t',
        !(s[i] == '/' && i + 1 < s.len() && s[i + 1] == '/'),
        lexeme(s, i, line) matches Ok((k2, j)) && j == i + canonical(k).len() && kind_match(k, k2),
{
    lemma_spelled_at(s, i, canonical(k));
    match k {
        TokenKind::Number(n) => {
            assert(canonical(k) == render(n));
            lemma_number_rescan(s, i, n, line);
            assert(digit_char(s[i]));
            assert(s[i] != '\n' && s[i] != ' ' && s[i] != '\r' && s[i] != '\t' && s[i] != '/');
            if let Ok((k2, j)) = lexeme(s, i, line) {
                assert(k2 matches TokenKind::Number(n2) && same(n, n2));
                assert(kind_match(k, k2));
            }
        },
        TokenKind::String(w) => {
            let c = canonical(k);
            assert(s[i + 0] == c[0]);
            assert forall|q: int| i + 1 <= q < i + 1 + w.len() implies in_class(
                #[trigger] s[q],
                RunClass::Quoted,
            ) by {
                assert(s[i + (q - i)] == c[q - i]);
                assert(c[q - i] == w[q - i - 1]);
            }
            assert(s[i + (w.len() + 1)] == c[w.len() + 1int]);
            lemma_run_end_at(s, i + 1, i + 1 + w.len(), RunClass::Quoted);
            assert forall|q: int| 0 <= q < w.len() implies s.subrange(i + 1, i + 1 + w.len())[q]
                == #[trigger] w[q] by {
                assert(s[i + (q + 1)] == c[q + 1]);
            }
            assert(s.subrange(i + 1, i + 1 + w.len()) =~= w);
        },
        TokenKind::Identifier(w) => {
            lemma_word_rescan(s, i, w, line);
        },
        TokenKind::And => {
            lemma_word_rescan(s, i, canonical(k), line);
        },
        TokenKind::Class => {
            lemma_word_rescan(s, i, canonical(k), line);
        },
        TokenKind::Else => {
            lemma_word_rescan(s, i, canonical(k), line);
        },
        TokenKind::False => {
            lemma_word_rescan(s, i, canonical(k), line);
        },
        TokenKind::Fun => {
            lemma_word_rescan(s, i, canonical(k), line);
        },
        TokenKind::For => {
            lemma_word_rescan(s, i, canonical(k), line);
        },
        TokenKind::If => {
            lemma_word_rescan(s, i, canonical(k), line);
        },
        TokenKind::Nil => {
            lemma_word_rescan(s, i, canonical(k), line);
        },
        TokenKind::Or => {
            lemma_word_rescan(s, i, canonical(k), line);
        },
        TokenKind::Print => {
            lemma_word_rescan(s, i, canonical(k), line);
        },
        TokenKind::Return => {
            lemma_word_rescan(s, i, canonical(k), line);
        },
        TokenKind::Super => {
            lemma_word_rescan(s, i, canonical(k), line);
        },
        TokenKind::This => {
            lemma_word_rescan(s, i, canonical(k), line);
        },
        TokenKind::True => {
            lemma_word_rescan(s, i, canonical(k), line);
        },
        TokenKind::Var => {
            lemma_word_rescan(s, i, canonical(k), line);
        },
        TokenKind::While => {
            lemma_word_rescan(s, i, canonical(k), line);
        },
        TokenKind::LeftParen => {
            assert(s[i + 0] == canonical(k)[0]);
            assert(lexeme(s, i, line) matches Ok((k2, j)) && j == i + canonical(k).len() && k2 == k);
        },
        TokenKind::RightParen => {
            assert(s[i + 0] == canonical(k)[0]);
            assert(lexeme(s, i, line) matches Ok((k2, j)) && j == i + canonical(k).len() && k2 == k);
        },
        TokenKind::LeftBrace => {
            assert(s[i + 0] == canonical(k)[0]);
            assert(lexeme(s, i, line) matches Ok((k2, j)) && j == i + canonical(k).len() && k2 == k);
        },
        TokenKind::RightBrace => {
            assert(s[i + 0] == canonical(k)[0]);
            assert(lexeme(s, i, line) matches Ok((k2, j)) && j == i + canonical(k).len() && k2 == k);
        },
        TokenKind::Comma => {
            assert(s[i + 0] == canonical(k)[0]);
            assert(lexeme(s, i, line) matches Ok((k2, j)) && j == i + canonical(k).len() && k2 == k);
        },
        TokenKind::Dot => {
            assert(s[i + 0] == canonical(k)[0]);
            assert(lexeme(s, i, line) matches Ok((k2, j)) && j == i + canonical(k).len() && k2 == k);
        },
        TokenKind::Minus => {
            assert(s[i + 0] == canonical(k)[0]);
            assert(lexeme(s, i, line) matches Ok((k2, j)) && j == i + canonical(k).len() && k2 == k);
        },
        TokenKind::Plus => {
            assert(s[i + 0] == canonical(k)[0]);
            assert(lexeme(s, i, line) matches Ok((k2, j)) && j == i + canonical(k).len() && k2 == k);
        },
        TokenKind::Semicolon => {
            assert(s[i + 0] == canonical(k)[0]);
            assert(lexeme(s, i, line) matches Ok((k2, j)) && j == i + canonical(k).len() && k2 == k);
        },
        TokenKind::Slash => {
            assert(s[i + 0] == canonical(k)[0]);
            assert(lexeme(s, i, line) matches Ok((k2, j)) && j == i + canonical(k).len() && k2 == k);
        },
        TokenKind::Star => {
            assert(s[i + 0] == canonical(k)[0]);
            assert(lexeme(s, i, line) matches Ok((k2, j)) && j == i + canonical(k).len() && k2 == k);
        },
        TokenKind::Bang => {
            assert(s[i + 0] == canonical(k)[0]);
            assert(lexeme(s, i, line) matches Ok((k2, j)) && j == i + canonical(k).len() && k2 == k);
        },
        TokenKind::BangEqual => {
            assert(s[i + 0] == canonical(k)[0]);
            assert(lexeme(s, i, line) matches Ok((k2, j)) && j == i + canonical(k).len() && k2 == k);
        },
        TokenKind::Equal => {
            assert(s[i + 0] == canonical(k)[0]);
            assert(lexeme(s, i, line) matches Ok((k2, j)) && j == i + canonical(k).len() && k2 == k);
        },
        TokenKind::EqualEqual => {
            assert(s[i + 0] == canonical(k)[0]);
            assert(lexeme(s, i, line) matches Ok((k2, j)) && j == i + canonical(k).len() && k2 == k);
        },
        TokenKind::Less => {
            assert(s[i + 0] == canonical(k)[0]);
            assert(lexeme(s, i, line) matches Ok((k2, j)) && j == i + canonical(k).len() && k2 == k);
        },
        TokenKind::LessEqual => {
            assert(s[i + 0] == canonical(k)[0]);
            assert(lexeme(s, i, line) matches Ok((k2, j)) && j == i + canonical(k).len() && k2 == k);
        },
        TokenKind::Greater => {
            assert(s[i + 0] == canonical(k)[0]);
            assert(lexeme(s, i, line) matches Ok((k2, j)) && j == i + canonical(k).len() && k2 == k);
        },
        TokenKind::GreaterEqual => {
            assert(s[i + 0] == canonical(k)[0]);
            assert(lexeme(s, i, line) matches Ok((k2, j)) && j == i + canonical(k).len() && k2 == k);
        },
        TokenKind::Eof => {},
    }
}

/// The text of a token sequence: each token's text (see [`canonical`])
/// followed by a space.
pub open spec fn text_of(ts: Seq<TokenView>) -> Seq<char>
    decreases ts.len(),
{
    if ts.len() == 0 {
        seq![]
    } else {
        canonical(ts[0].0) + seq![' '] + text_of(ts.drop_first())
    }
}

/// Whether two token sequences have the same kinds, numbers equal in value.
pub open spec fn same_kinds(a: Seq<TokenView>, b: Seq<TokenView>) -> bool {
    &&& a.len() == b.len()
    &&& forall|k: int| 0 <= k < a.len() ==> kind_match(#[trigger] a[k].0, b[k].0)
}

/// Whether every number among the tokens is finite.
pub open spec fn numbers_finite(ts: Seq<TokenView>) -> bool {
    forall|k: int| 0 <= k < ts.len() ==> (#[trigger] ts[k].0 matches TokenKind::Number(n) ==> n.is_finite())
}

proof fn lemma_pow10_places_bound(k: nat)
    requires
        k <= MAX_PLACES,
    ensures
        1 <= pow10(k) <= i64::MAX,
{
    crate::number::lemma_pow10_places(k);
}

proof fn lemma_literal_places_bounds(w: Seq<char>, f: Seq<char>, k: nat)
    requires
        k <= f.len(),
        k <= MAX_PLACES,
        rounded_prefix(w, f, k) <= i64::MAX,
    ensures
        k <= literal_places(w, f, k) <= f.len(),
        literal_places(w, f, k) <= MAX_PLACES,
        rounded_prefix(w, f, literal_places(w, f, k)) <= i64::MAX,
    decreases f.len() - k,
{
    if k < MAX_PLACES && k < f.len() && rounded_prefix(w, f, k + 1) <= i64::MAX {
        lemma_literal_places_bounds(w, f, k + 1);
    }
}

proof fn lemma_lexeme_scanned(s: Seq<char>, i: int, line: nat)
    requires
        0 <= i < s.len(),
    ensures
        lexeme(s, i, line) matches Ok((k, _)) ==> scanned_kind(k),
{
    lemma_run_end(s, i, RunClass::Digit);
    lemma_run_end(s, i + 1, RunClass::Quoted);
    lemma_run_end(s, i + 1, RunClass::Word);
    let e = run_end(s, i, RunClass::Digit);
    if has_fraction(s, i) {
        lemma_run_end(s, e + 1, RunClass::Digit);
    }
    if let Ok((k, j)) = lexeme(s, i, line) {
        let c = s[i];
        if c == '"' {
            let w = s.subrange(i + 1, j - 1);
            assert forall|q: int| 0 <= q < w.len() implies in_class(#[trigger] w[q], RunClass::Quoted) by {
                assert(w[q] == s[i + 1 + q]);
            }
            assert(scanned_kind(k));
        } else if digit_char(c) {
            let w = whole_digits(s, i);
            let f = fraction_digits(s, i);
            assert forall|q: int| 0 <= q < w.len() implies digit_char(#[trigger] w[q]) by {
                assert(w[q] == s[i + q]);
            }
            assert forall|q: int| 0 <= q < f.len() implies digit_char(#[trigger] f[q]) by {
                assert(f[q] == s[e + 1 + q]);
            }
            if rounded_prefix(w, f, 0) <= i64::MAX {
                lemma_literal_places_bounds(w, f, 0);
                let lp = literal_places(w, f, 0);
                lemma_rounded_prefix_below(w, f, lp);
                if let TokenKind::Number(n) = k {
                    lemma_pow10_places_bound(lp);
                    assert(n.den == pow10(lp));
                }
            }
            assert(scanned_kind(k));
        } else if word_start(c) {
            let w = s.subrange(i, j);
            if keyword_of(w) is None {
                assert(w[0] == s[i]);
                assert forall|q: int| 0 <= q < w.len() implies in_class(#[trigger] w[q], RunClass::Word) by {
                    assert(w[q] == s[i + q]);
                }
                assert(scanned_kind(k));
            }
        }
    }
}

proof fn lemma_lex_scanned(s: Seq<char>, i: int, line: nat)
    requires
        0 <= i <= s.len(),
    ensures
        lex(s, i, line) matches Ok(ts) ==> forall|k: int| 0 <= k < ts.len() ==> scanned_kind(#[trigger] ts[k].0),
    decreases s.len() - i,
{
    if i < s.len() {
        if s[i] == '\n' || s[i] == ' ' || s[i] == '\r' || s[i] == '\t' {
            lemma_lex_scanned(s, i + 1, if s[i] == '\n' { line + 1 } else { line });
        } else if s[i] == '/' && i + 1 < s.len() && s[i + 1] == '/' {
            lemma_run_end(s, i + 2, RunClass::Line);
            lemma_lex_scanned(s, run_end(s, i + 2, RunClass::Line), line);
        } else {
            crate::lexer::lemma_lexeme_end(s, i, line);
            lemma_lexeme_scanned(s, i, line);
            if let Ok((k, j)) = lexeme(s, i, line) {
                lemma_lex_scanned(s, j, line);
                if let Ok(rest) = lex(s, j, line) {
                    let ts = seq![(k, line)] + rest;
                    assert forall|q: int| 0 <= q < ts.len() implies scanned_kind(#[trigger] ts[q].0) by {
                        if q > 0 {
                            assert(ts[q] == rest[q - 1]);
                        }
                    }
                }
            }
        }
    } else {
        let ts = seq![(TokenKind::<Seq<char>>::Eof, line)];
        assert forall|q: int| 0 <= q < ts.len() implies scanned_kind(#[trigger] ts[q].0) by {}
    }
}

proof fn lemma_rescan_from(ts: Seq<TokenView>, s: Seq<char>, i: int)
    requires
        0 <= i <= s.len(),
        s.skip(i) == text_of(ts),
        ts.len() >= 1,
        ts.last().0 == TokenKind::<Seq<char>>::Eof,
        forall|k: int| 0 <= k < ts.len() - 1 ==> #[trigger] ts[k].0 != TokenKind::<Seq<char>>::Eof,
        forall|k: int| 0 <= k < ts.len() ==> scanned_kind(#[trigger] ts[k].0),
        numbers_finite(ts),
    ensures
        lex(s, i, 1) matches Ok(r) && same_kinds(ts, r),
    decreases ts.len(),
{
    let k0 = ts[0].0;
    let c = canonical(k0);
    let rest = ts.drop_first();
    assert(text_of(ts) == c + seq![' '] + text_of(rest));
    if k0 == TokenKind::<Seq<char>>::Eof {
        assert(ts.len() == 1);
        assert(rest.len() == 0);
        assert(text_of(ts) =~= seq![' ']);
        assert(s.skip(i).len() == 1);
        assert(s[i] == s.skip(i)[0]);
        let r = seq![(TokenKind::<Seq<char>>::Eof, 1nat)];
        assert(lex(s, i + 1, 1) == ScanView::Ok(r));
        assert(same_kinds(ts, r));
    } else {
        assert(numbers_finite(ts));
        assert(ts[0].0 == k0);
        assert(s.skip(i).len() == s.len() - i);
        assert(text_of(ts).len() == c.len() + 1 + text_of(rest).len());
        assert(s.subrange(i, i + c.len() + 1) =~= c + seq![' ']) by {
            assert forall|q: int| 0 <= q < c.len() + 1 implies #[trigger] s.subrange(i, i + c.len() + 1)[q]
                == (c + seq![' '])[q] by {
                assert(s.skip(i)[q] == s[i + q]);
            }
        }
        lemma_token_rescan(s, i, k0, 1);
        lemma_spelled_at(s, i, c);
        let j = i + c.len();
        assert(s[j] == ' ');
        assert(s.skip(j + 1) =~= text_of(rest)) by {
            assert forall|q: int| 0 <= q < s.skip(j + 1).len() implies #[trigger] s.skip(j + 1)[q]
                == text_of(rest)[q] by {
                assert(s.skip(i)[c.len() + 1 + q] == s[j + 1 + q]);
            }
        }
        assert(rest.len() >= 1);
        assert(rest.last() == ts.last());
        assert forall|k: int| 0 <= k < rest.len() - 1 implies #[trigger] rest[k].0 != TokenKind::<Seq<char>>::Eof by {
            assert(rest[k] == ts[k + 1]);
        }
        assert forall|k: int| 0 <= k < rest.len() implies scanned_kind(#[trigger] rest[k].0) by {
            assert(rest[k] == ts[k + 1]);
        }
        assert forall|k: int| 0 <= k < rest.len() implies (#[trigger] rest[k].0 matches TokenKind::Number(n) ==> n.is_finite()) by {
            assert(rest[k] == ts[k + 1]);
        }
        lemma_rescan_from(rest, s, j + 1);
        if let Ok((k2, jj)) = lexeme(s, i, 1) {
            if let Ok(r2) = lex(s, j + 1, 1) {
                let r = seq![(k2, 1nat)] + r2;
                assert(lex(s, j, 1) == lex(s, j + 1, 1));
                assert(lex(s, i, 1) == ScanView::Ok(r));
                assert forall|k: int| 0 <= k < ts.len() implies kind_match(#[trigger] ts[k].0, r[k].0) by {
                    if k > 0 {
                        assert(ts[k] == rest[k - 1]);
                        assert(r[k] == r2[k - 1]);
                    }
                }
            }
        }
    }
}

/// Scanning the text of a successful scan's tokens (each followed by a
/// space) gives tokens of the same kinds, numbers equal in value, provided
/// that every number is finite (a literal past the largest number scans as
/// infinity, whose text `inf` is a name).
pub proof fn lemma_rescan(s: Seq<char>)
    requires
        lex(s, 0, 1) matches Ok(ts) ==> numbers_finite(ts),
    ensures
        lex(s, 0, 1) matches Ok(ts) ==> (lex(text_of(ts), 0, 1) matches Ok(r) && same_kinds(ts, r)),
{
    if let Ok(ts) = lex(s, 0, 1) {
        crate::lexer::lemma_scan_ends_with_one_eof(s);
        lemma_lex_scanned(s, 0, 1);
        let t = text_of(ts);
        assert(t.skip(0) == t);
        lemma_rescan_from(ts, t, 0);
    }
}

} // verus!
