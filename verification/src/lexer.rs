//! The tokenizer: a single forward pass over the source characters that
//! classifies maximal runs into tokens, tracking 1-based line and column.
//! The specification is a recursive scan over the padded character sequence.

use vstd::prelude::*;
use crate::tokens::{tokens_view, TokenAt, TokenView, Tokens};

verus! {

/// A decimal digit.
pub open spec fn is_digit(c: char) -> bool {
    48 <= c as u32 && c as u32 <= 57
}

/// A letter or underscore: the characters an identifier or keyword is made
/// of.
pub open spec fn is_word_char(c: char) -> bool {
    c == '_' || (97 <= c as u32 && c as u32 <= 122) || (65 <= c as u32 && c as u32 <= 90)
}

/// The value of one digit character.
pub open spec fn digit_val(c: char) -> i64 {
    (c as u32 - 48) as i64
}

/// One step of literal accumulation: `acc * 10 + d` with wrapping 64-bit
/// signed arithmetic.
pub open spec fn wrap_step(acc: i64, d: i64) -> i64 {
    vstd::wrapping::i64_specs::wrapping_add(vstd::wrapping::i64_specs::wrapping_mul(acc, 10), d)
}

/// The first index at or after `i` holding no digit.
pub open spec fn digit_run_end(s: Seq<char>, i: nat) -> nat
    decreases s.len() - i,
{
    if i < s.len() && is_digit(s[i as int]) {
        digit_run_end(s, i + 1)
    } else {
        i
    }
}

/// The first index at or after `i` holding no letter or underscore.
pub open spec fn word_run_end(s: Seq<char>, i: nat) -> nat
    decreases s.len() - i,
{
    if i < s.len() && is_word_char(s[i as int]) {
        word_run_end(s, i + 1)
    } else {
        i
    }
}

pub proof fn lemma_digit_run_end(s: Seq<char>, i: nat)
    requires
        i <= s.len(),
    ensures
        i <= digit_run_end(s, i) <= s.len(),
        forall|k: int| i <= k < digit_run_end(s, i) ==> is_digit(s[k]),
        digit_run_end(s, i) < s.len() ==> !is_digit(s[digit_run_end(s, i) as int]),
    decreases s.len() - i,
{
    if i < s.len() && is_digit(s[i as int]) {
        lemma_digit_run_end(s, i + 1);
    }
}

pub proof fn lemma_word_run_end(s: Seq<char>, i: nat)
    requires
        i <= s.len(),
    ensures
        i <= word_run_end(s, i) <= s.len(),
        forall|k: int| i <= k < word_run_end(s, i) ==> is_word_char(s[k]),
        word_run_end(s, i) < s.len() ==> !is_word_char(s[word_run_end(s, i) as int]),
    decreases s.len() - i,
{
    if i < s.len() && is_word_char(s[i as int]) {
        lemma_word_run_end(s, i + 1);
    }
}

/// The wrapping accumulation of the digits in `s[i..j)` on top of `acc`.
pub open spec fn digits_value(s: Seq<char>, i: nat, j: nat, acc: i64) -> i64
    decreases j - i,
{
    if i >= j {
        acc
    } else {
        digits_value(s, i + 1, j, wrap_step(acc, digit_val(s[i as int])))
    }
}

pub proof fn lemma_digits_value_snoc(s: Seq<char>, i: nat, j: nat, acc: i64)
    requires
        i <= j < s.len(),
    ensures
        digits_value(s, i, j + 1, acc) == wrap_step(
            digits_value(s, i, j, acc),
            digit_val(s[j as int]),
        ),
    decreases j - i,
{
    if i < j {
        lemma_digits_value_snoc(s, i + 1, j, wrap_step(acc, digit_val(s[i as int])));
    } else {
        assert(digits_value(s, i, j + 1, acc) == digits_value(
            s,
            i + 1,
            j + 1,
            wrap_step(acc, digit_val(s[i as int])),
        ));
        assert(digits_value(s, i + 1, j + 1, wrap_step(acc, digit_val(s[i as int])))
            == wrap_step(acc, digit_val(s[i as int])));
    }
}

/// The token a keyword or identifier run denotes.
pub open spec fn word_token(w: Seq<char>) -> TokenView {
    if w == ("print")@ {
        TokenView::Print
    } else if w == ("println")@ {
        TokenView::Println
    } else if w == ("var")@ {
        TokenView::Var
    } else if w == ("if")@ {
        TokenView::If
    } else if w == ("else")@ {
        TokenView::Else
    } else if w == ("while")@ {
        TokenView::While
    } else if w == ("or")@ {
        TokenView::LogicalOr
    } else if w == ("and")@ {
        TokenView::LogicalAnd
    } else {
        TokenView::Identifier(w)
    }
}

/// The result of tokenizing: the positioned tokens and the final resting
/// position, or the position of the first unrecognized character.
pub enum LexOut {
    Toks(Seq<(TokenView, u64, u64)>, (u64, u64)),
    Fail((u64, u64)),
}

/// Puts one token in front of a tokenizing result.
pub open spec fn lex_prepend(t: (TokenView, u64, u64), rest: LexOut) -> LexOut {
    match rest {
        LexOut::Toks(ts, end) => LexOut::Toks(seq![t] + ts, end),
        LexOut::Fail(p) => LexOut::Fail(p),
    }
}

/// Puts already-scanned tokens in front of the result of scanning the rest.
pub open spec fn lex_combine(prefix: Seq<(TokenView, u64, u64)>, rest: LexOut) -> LexOut {
    match rest {
        LexOut::Toks(ts, end) => LexOut::Toks(prefix + ts, end),
        LexOut::Fail(p) => LexOut::Fail(p),
    }
}

proof fn lemma_combine_step(
    prefix: Seq<(TokenView, u64, u64)>,
    t: (TokenView, u64, u64),
    rest: LexOut,
)
    ensures
        lex_combine(prefix, lex_prepend(t, rest)) == lex_combine(prefix.push(t), rest),
{
    match rest {
        LexOut::Toks(ts, end) => {
            assert(prefix + (seq![t] + ts) =~= prefix.push(t) + ts);
        },
        LexOut::Fail(_) => {},
    }
}

/// Tokenizes `s` from index `i` at position (`line`, `col`). Longest match
/// first: a digit run becomes one integer literal with wrapping
/// accumulation, a letter or underscore run becomes a keyword or identifier,
/// a two-character operator is preferred over its one-character prefix,
/// whitespace is skipped, a newline starts the next line at column 1, and
/// any other character stops the scan at its position.
pub open spec fn lex_from(s: Seq<char>, i: nat, line: u64, col: u64) -> LexOut
    decreases s.len() - i,
    via lex_from_decreases
{
    if i >= s.len() {
        LexOut::Toks(Seq::empty(), (line, col))
    } else {
        let c = s[i as int];
        if is_digit(c) {
            let j = digit_run_end(s, i);
            lex_prepend(
                (TokenView::Integer(digits_value(s, i, j, 0)), line, col),
                lex_from(s, j, line, (col + (j - i)) as u64),
            )
        } else if is_word_char(c) {
            let j = word_run_end(s, i);
            lex_prepend(
                (word_token(s.subrange(i as int, j as int)), line, col),
                lex_from(s, j, line, (col + (j - i)) as u64),
            )
        } else if c == '|' {
            if i + 1 < s.len() && s[i + 1 as int] == '|' {
                lex_prepend(
                    (TokenView::LogicalOr, line, col),
                    lex_from(s, i + 2, line, (col + 2) as u64),
                )
            } else {
                lex_prepend(
                    (TokenView::BitwiseOr, line, col),
                    lex_from(s, i + 1, line, (col + 1) as u64),
                )
            }
        } else if c == '&' {
            if i + 1 < s.len() && s[i + 1 as int] == '&' {
                lex_prepend(
                    (TokenView::LogicalAnd, line, col),
                    lex_from(s, i + 2, line, (col + 2) as u64),
                )
            } else {
                lex_prepend(
                    (TokenView::BitwiseAnd, line, col),
                    lex_from(s, i + 1, line, (col + 1) as u64),
                )
            }
        } else if c == '>' {
            if i + 1 < s.len() && s[i + 1 as int] == '=' {
                lex_prepend(
                    (TokenView::GreaterEqual, line, col),
                    lex_from(s, i + 2, line, (col + 2) as u64),
                )
            } else {
                lex_prepend(
                    (TokenView::Greater, line, col),
                    lex_from(s, i + 1, line, (col + 1) as u64),
                )
            }
        } else if c == '<' {
            if i + 1 < s.len() && s[i + 1 as int] == '=' {
                lex_prepend(
                    (TokenView::LesserEqual, line, col),
                    lex_from(s, i + 2, line, (col + 2) as u64),
                )
            } else {
                lex_prepend(
                    (TokenView::Lesser, line, col),
                    lex_from(s, i + 1, line, (col + 1) as u64),
                )
            }
        } else if c == '=' {
            if i + 1 < s.len() && s[i + 1 as int] == '=' {
                lex_prepend(
                    (TokenView::Equal, line, col),
                    lex_from(s, i + 2, line, (col + 2) as u64),
                )
            } else {
                lex_prepend(
                    (TokenView::Assign, line, col),
                    lex_from(s, i + 1, line, (col + 1) as u64),
                )
            }
        } else if c == '!' {
            if i + 1 < s.len() && s[i + 1 as int] == '=' {
                lex_prepend(
                    (TokenView::NotEqual, line, col),
                    lex_from(s, i + 2, line, (col + 2) as u64),
                )
            } else {
                lex_prepend(
                    (TokenView::LogicalNot, line, col),
                    lex_from(s, i + 1, line, (col + 1) as u64),
                )
            }
        } else if c == '^' {
            lex_prepend(
                (TokenView::BitwiseXor, line, col),
                lex_from(s, i + 1, line, (col + 1) as u64),
            )
        } else if c == '~' {
            lex_prepend(
                (TokenView::BitwiseNot, line, col),
                lex_from(s, i + 1, line, (col + 1) as u64),
            )
        } else if c == '+' {
            lex_prepend((TokenView::Plus, line, col), lex_from(s, i + 1, line, (col + 1) as u64))
        } else if c == '-' {
            lex_prepend((TokenView::Minus, line, col), lex_from(s, i + 1, line, (col + 1) as u64))
        } else if c == '*' {
            lex_prepend((TokenView::Star, line, col), lex_from(s, i + 1, line, (col + 1) as u64))
        } else if c == '/' {
            lex_prepend((TokenView::Slash, line, col), lex_from(s, i + 1, line, (col + 1) as u64))
        } else if c == '%' {
            lex_prepend((TokenView::Percent, line, col), lex_from(s, i + 1, line, (col + 1) as u64))
        } else if c == '(' {
            lex_prepend(
                (TokenView::LeftParen, line, col),
                lex_from(s, i + 1, line, (col + 1) as u64),
            )
        } else if c == ')' {
            lex_prepend(
                (TokenView::RightParen, line, col),
                lex_from(s, i + 1, line, (col + 1) as u64),
            )
        } else if c == '{' {
            lex_prepend(
                (TokenView::LeftBrace, line, col),
                lex_from(s, i + 1, line, (col + 1) as u64),
            )
        } else if c == '}' {
            lex_prepend(
                (TokenView::RightBrace, line, col),
                lex_from(s, i + 1, line, (col + 1) as u64),
            )
        } else if c == ';' {
            lex_prepend(
                (TokenView::SemiColon, line, col),
                lex_from(s, i + 1, line, (col + 1) as u64),
            )
        } else if c == '\n' {
            lex_from(s, i + 1, (line + 1) as u64, 1)
        } else if c == ' ' || c == '\t' || c == '\r' {
            lex_from(s, i + 1, line, (col + 1) as u64)
        } else {
            LexOut::Fail((line, col))
        }
    }
}

#[via_fn]
proof fn lex_from_decreases(s: Seq<char>, i: nat, line: u64, col: u64) {
    if i < s.len() {
        lemma_digit_run_end(s, i);
        lemma_word_run_end(s, i);
    }
}

/// Tokenizing a whole source text: the text is padded with one trailing
/// space so a pending digit or word run flushes at end of input, and the
/// scan starts at line 1, column 1.
pub open spec fn lex_text(t: Seq<char>) -> LexOut {
    lex_from(t.push(' '), 0, 1, 1)
}

proof fn lemma_digit_char_val(d: nat)
    requires
        d < 10,
    ensures
        is_digit(crate::numerals::digit_char(d)),
        digit_val(crate::numerals::digit_char(d)) == d as i64,
{
}

/// The decimal text of a natural number is a nonempty digit run.
proof fn lemma_dec_nat_digits(m: nat)
    ensures
        1 <= crate::numerals::dec_nat(m).len() <= m + 1,
        forall|k: int|
            0 <= k < crate::numerals::dec_nat(m).len() ==> is_digit(
                #[trigger] crate::numerals::dec_nat(m)[k],
            ),
    decreases m,
{
    let t = crate::numerals::dec_nat(m);
    if m < 10 {
        lemma_digit_char_val(m);
    } else {
        lemma_dec_nat_digits(m / 10);
        lemma_digit_char_val(m % 10);
        vstd::arithmetic::div_mod::lemma_div_is_strictly_smaller(m as int, 10);
        assert(forall|k: int|
            0 <= k < t.len() - 1 ==> t[k] == crate::numerals::dec_nat(m / 10)[k]);
        assert(t[t.len() - 1] == crate::numerals::digit_char(m % 10));
    }
}

/// A maximal digit run ends exactly where the digits end.
proof fn lemma_run_end_exact(s: Seq<char>, i: nat, j: nat)
    requires
        i <= j <= s.len(),
        forall|k: int| i <= k < j ==> is_digit(s[k]),
        j == s.len() || !is_digit(s[j as int]),
    ensures
        digit_run_end(s, i) == j,
    decreases j - i,
{
    if i < j {
        lemma_run_end_exact(s, i + 1, j);
    }
}

/// Accumulating the digits of the decimal text of `m` gives back `m`: in the
/// 64-bit signed range the wrapping accumulation never wraps, and at the one
/// magnitude just past it, that of the smallest value, it wraps to the
/// smallest value.
proof fn lemma_digits_value_dec(s: Seq<char>, i: nat, m: nat)
    requires
        m <= 0x8000_0000_0000_0000,
        i + crate::numerals::dec_nat(m).len() <= s.len(),
        s.subrange(i as int, (i + crate::numerals::dec_nat(m).len()) as int)
            == crate::numerals::dec_nat(m),
    ensures
        digits_value(s, i, i + crate::numerals::dec_nat(m).len(), 0) == if m <= i64::MAX {
            m as i64
        } else {
            i64::MIN
        },
    decreases m,
{
    let t = crate::numerals::dec_nat(m);
    let j = i + t.len();
    if m < 10 {
        lemma_digit_char_val(m);
        assert(s[i as int] == s.subrange(i as int, j as int)[0]);
        assert(s[i as int] == crate::numerals::digit_char(m));
        assert(digits_value(s, i, (i + 1) as nat, 0) == digits_value(
            s,
            i + 1,
            (i + 1) as nat,
            wrap_step(0, digit_val(s[i as int])),
        ));
        assert(wrap_step(0, m as i64) == m as i64);
    } else {
        let h = m / 10;
        let d = m % 10;
        vstd::arithmetic::div_mod::lemma_div_is_strictly_smaller(m as int, 10);
        vstd::arithmetic::div_mod::lemma_fundamental_div_mod(m as int, 10);
        lemma_dec_nat_digits(h);
        let th = crate::numerals::dec_nat(h);
        assert(t =~= th + seq![crate::numerals::digit_char(d)]);
        assert(s.subrange(i as int, (i + th.len()) as int) =~= th);
        assert(h <= i64::MAX) by (nonlinear_arith)
            requires
                h == m / 10,
                10 <= m <= 0x8000_0000_0000_0000,
        ;
        lemma_digits_value_dec(s, i, h);
        lemma_digit_char_val(d);
        assert(s[(j - 1) as int] == s.subrange(i as int, j as int)[t.len() - 1]);
        assert(s[(j - 1) as int] == crate::numerals::digit_char(d));
        lemma_digits_value_snoc(s, i, (j - 1) as nat, 0);
        assert(digits_value(s, i, j, 0) == wrap_step(h as i64, d as i64));
        assert(h * 10 + d == m);
        assert(h * 10 <= m) by (nonlinear_arith)
            requires
                h == m / 10,
                d == m % 10,
                h * 10 + d == m,
                0 <= d,
        ;
        assert(vstd::wrapping::i64_specs::wrapping_mul(h as i64, 10) == (h * 10) as i64) by {
            vstd::arithmetic::div_mod::lemma_small_mod((h * 10) as nat, 0x1_0000_0000_0000_0000);
        }
        if m <= i64::MAX {
            assert(wrap_step(h as i64, d as i64) == m as i64);
        } else {
            assert(m == 0x8000_0000_0000_0000) by (nonlinear_arith)
                requires
                    i64::MAX < m <= 0x8000_0000_0000_0000,
            ;
            assert(wrap_step(h as i64, d as i64) == i64::MIN);
        }
    }
}

/// Tokenizing the decimal text of a nonnegative 64-bit signed value yields
/// exactly one integer literal holding that value, tagged line 1, column 1;
/// and an integer literal evaluates to its value in every environment. So
/// printing a value and reading it back is the identity on this range.
pub proof fn lemma_literal_round_trip(n: i64, env: Map<Seq<char>, i64>)
    requires
        0 <= n,
    ensures
        lex_text(crate::numerals::dec_i64(n)) == LexOut::Toks(
            seq![(TokenView::Integer(n), 1, 1)],
            (1, (crate::numerals::dec_i64(n).len() + 2) as u64),
        ),
        crate::semantics::eval_expr(crate::semantics::ExprV::Integer(n), env)
            == crate::semantics::EvalOut::Val(n),
{
    let t = crate::numerals::dec_i64(n);
    let m = n as nat;
    assert(t == crate::numerals::dec_nat(m));
    let s = t.push(' ');
    lemma_dec_nat_digits(m);
    assert(forall|k: int| 0 <= k < t.len() ==> s[k] == t[k]);
    assert(s[t.len() as int] == ' ');
    assert(!is_digit(' '));
    lemma_run_end_exact(s, 0, t.len());
    assert(s.subrange(0, t.len() as int) =~= t);
    lemma_digits_value_dec(s, 0, m);
    assert(t.len() + 2 < u64::MAX) by {
        assert(t.len() <= m + 1);
    }
    let rest = lex_from(s, t.len(), 1, (1 + t.len()) as u64);
    assert(lex_from(s, 0, 1, 1) == lex_prepend((TokenView::Integer(n), 1, 1), rest));
    assert(rest == lex_from(s, t.len() + 1, 1, (t.len() + 2) as u64));
    assert(lex_from(s, t.len() + 1, 1, (t.len() + 2) as u64) == LexOut::Toks(
        Seq::empty(),
        (1, (t.len() + 2) as u64),
    ));
    assert(seq![(TokenView::Integer(n), 1u64, 1u64)] + Seq::empty()
        =~= seq![(TokenView::Integer(n), 1u64, 1u64)]);
}

/// Tokenizing the decimal text of a negative 64-bit signed value yields a
/// minus sign and one integer literal; parsing that pair as a unary
/// expression and evaluating it gives back exactly the value. For the
/// smallest value the literal's magnitude wraps to the value itself, as
/// documented for long literals, and the wrapping negation restores it.
pub proof fn lemma_negative_literal_round_trip(n: i64, env: Map<Seq<char>, i64>)
    requires
        n < 0,
    ensures
        lex_text(crate::numerals::dec_i64(n)) == LexOut::Toks(
            seq![
                (TokenView::Minus, 1, 1),
                (
                    TokenView::Integer(crate::semantics::wrap_neg(n)),
                    1,
                    2,
                ),
            ],
            (1, (crate::numerals::dec_i64(n).len() + 2) as u64),
        ),
        crate::semantics::eval_expr(
            crate::semantics::ExprV::Unary(
                crate::semantics::UnOp::UnaryMinus,
                Box::new(crate::semantics::ExprV::Integer(crate::semantics::wrap_neg(n))),
            ),
            env,
        ) == crate::semantics::EvalOut::Val(n),
{
    let full = crate::numerals::dec_i64(n);
    let m = (-(n as int)) as nat;
    let t = crate::numerals::dec_nat(m);
    assert(full == seq!['-'] + t);
    let s = full.push(' ');
    lemma_dec_nat_digits(m);
    assert(s[0] == '-');
    assert(!is_digit('-') && !is_word_char('-'));
    assert(forall|k: int| 0 <= k < t.len() ==> s[1 + k] == t[k]);
    assert(s[(1 + t.len()) as int] == ' ');
    assert(!is_digit(' '));
    assert(forall|k: int| 1 <= k < 1 + t.len() ==> is_digit(s[k]));
    lemma_run_end_exact(s, 1, (1 + t.len()) as nat);
    assert(s.subrange(1, (1 + t.len()) as int) =~= t);
    lemma_digits_value_dec(s, 1, m);
    let v = crate::semantics::wrap_neg(n);
    assert(digits_value(s, 1, 1 + t.len(), 0) == v);
    assert(t.len() + 3 < u64::MAX) by {
        assert(t.len() <= m + 1);
    }
    let after_digits = lex_from(s, 1 + t.len(), 1, (2 + t.len()) as u64);
    assert(is_digit(s[1]));
    assert(lex_from(s, 1, 1, 2) == lex_prepend((TokenView::Integer(v), 1, 2), after_digits));
    assert(lex_from(s, 0, 1, 1) == lex_prepend((TokenView::Minus, 1, 1), lex_from(s, 1, 1, 2)));
    assert(after_digits == lex_from(s, 2 + t.len(), 1, (3 + t.len()) as u64));
    assert(lex_from(s, 2 + t.len(), 1, (3 + t.len()) as u64) == LexOut::Toks(
        Seq::empty(),
        (1, (3 + t.len()) as u64),
    ));
    assert(full.len() == 1 + t.len());
    assert(seq![(TokenView::Minus, 1u64, 1u64)] + (seq![(TokenView::Integer(v), 1u64, 2u64)]
        + Seq::empty()) =~= seq![
        (TokenView::Minus, 1u64, 1u64),
        (TokenView::Integer(v), 1u64, 2u64),
    ]);
    assert(crate::semantics::eval_expr(crate::semantics::ExprV::Integer(v), env)
        == crate::semantics::EvalOut::Val(v));
    assert(crate::semantics::apply_unary(crate::semantics::UnOp::UnaryMinus, v)
        == crate::semantics::wrap_neg(v));
    assert(crate::semantics::wrap_neg(v) == n);
}

/// One scanned step: the token at the front of the remainder moves into the
/// prefix of already-scanned tokens.
proof fn lemma_lex_step(
    prefix: Seq<(TokenView, u64, u64)>,
    t: (TokenView, u64, u64),
    s: Seq<char>,
    i0: nat,
    line0: u64,
    col0: u64,
    k: nat,
    full: LexOut,
)
    requires
        lex_from(s, i0, line0, col0) == lex_prepend(
            t,
            lex_from(s, i0 + k, line0, (col0 + k) as u64),
        ),
        lex_combine(prefix, lex_from(s, i0, line0, col0)) == full,
    ensures
        lex_combine(prefix.push(t), lex_from(s, i0 + k, line0, (col0 + k) as u64)) == full,
{
    lemma_combine_step(prefix, t, lex_from(s, i0 + k, line0, (col0 + k) as u64));
}

fn is_digit_exec(c: char) -> (r: bool)
    ensures
        r == is_digit(c),
{
    let u = c as u32;
    48 <= u && u <= 57
}

fn is_word_char_exec(c: char) -> (r: bool)
    ensures
        r == is_word_char(c),
{
    let u = c as u32;
    c == '_' || (97 <= u && u <= 122) || (65 <= u && u <= 90)
}

fn digit_val_exec(c: char) -> (d: i64)
    requires
        is_digit(c),
    ensures
        d == digit_val(c),
{
    ((c as u32) - 48) as i64
}

/// The token for a completed keyword or identifier run.
fn classify_word(word: String) -> (t: Tokens)
    ensures
        t@ == word_token(word@),
{
    if word == "print".to_owned() {
        Tokens::Print
    } else if word == "println".to_owned() {
        Tokens::Println
    } else if word == "var".to_owned() {
        Tokens::Var
    } else if word == "if".to_owned() {
        Tokens::If
    } else if word == "else".to_owned() {
        Tokens::Else
    } else if word == "while".to_owned() {
        Tokens::While
    } else if word == "or".to_owned() {
        Tokens::LogicalOr
    } else if word == "and".to_owned() {
        Tokens::LogicalAnd
    } else {
        Tokens::Identifier(word)
    }
}

/// The tokenizer: one forward cursor over the characters, the tokens
/// scanned so far, and the current 1-based line and column.
pub struct Lexer {
    scanning: Vec<char>,
    scanned: Vec<TokenAt>,
    position: usize,
    line: u64,
    line_pos: u64,
}

impl Lexer {
    /// The source text handed in at construction.
    pub closed spec fn input(&self) -> Seq<char> {
        self.scanning@
    }

    /// The views of the tokens scanned so far.
    pub closed spec fn tokens(&self) -> Seq<(TokenView, u64, u64)> {
        tokens_view(self.scanned@)
    }

    /// The current resting position; after a full scan, the canonical
    /// end-of-input position.
    pub closed spec fn final_pos(&self) -> (u64, u64) {
        (self.line, self.line_pos)
    }

    /// A lexer that has not scanned anything yet.
    pub closed spec fn ready(&self) -> bool {
        self.scanned@ == Seq::<TokenAt>::empty() && self.position == 0 && self.line == 1
            && self.line_pos == 1
    }

    pub fn new(v: Vec<char>) -> (r: Lexer)
        ensures
            r.input() == v@,
            r.ready(),
    {
        Lexer { scanning: v, scanned: Vec::new(), position: 0, line: 1, line_pos: 1 }
    }

    /// Hands out the scanned tokens.
    pub fn get_scanned_vec(self) -> (r: Vec<TokenAt>)
        ensures
            tokens_view(r@) == self.tokens(),
    {
        self.scanned
    }

    /// The final resting position of the scan, reported to the parser as the
    /// canonical end-of-input position.
    pub fn get_final_pos(&self) -> (r: (u64, u64))
        ensures
            r == self.final_pos(),
    {
        (self.line, self.line_pos)
    }

    fn now(&self) -> (c: char)
        requires
            self.position < self.scanning@.len(),
        ensures
            c == self.scanning@[self.position as int],
    {
        self.scanning[self.position]
    }

    fn peek(&self) -> (c: Option<char>)
        requires
            self.position < self.scanning@.len(),
        ensures
            match c {
                Some(x) => self.position + 1 < self.scanning@.len() && x == self.scanning@[
                    self.position + 1
                ],
                None => self.position + 1 >= self.scanning@.len(),
            },
    {
        let n = self.scanning.len();
        if self.position + 1 < n {
            Some(self.scanning[self.position + 1])
        } else {
            None
        }
    }

    fn advance(&mut self)
        requires
            old(self).position < old(self).scanning@.len(),
            old(self).line_pos < u64::MAX,
        ensures
            final(self).position == old(self).position + 1,
            final(self).line_pos == old(self).line_pos + 1,
            final(self).line == old(self).line,
            final(self).scanning == old(self).scanning,
            final(self).scanned == old(self).scanned,
    {
        let n = self.scanning.len();
        if self.position < n {
            self.position = self.position + 1;
            self.line_pos = self.line_pos + 1;
        }
    }

    /// Scans the whole source, padded with one trailing space, into
    /// positioned tokens, or stops at the first unrecognized character and
    /// reports its position. The result is exactly what the abstract
    /// tokenizer gives on the same text.
    pub fn scan(&mut self) -> (r: Result<(), (u64, u64)>)
        requires
            old(self).ready(),
            old(self).input().len() + 4 < u64::MAX,
        ensures
            match r {
                Ok(()) => lex_text(old(self).input()) == LexOut::Toks(
                    final(self).tokens(),
                    final(self).final_pos(),
                ),
                Err(p) => lex_text(old(self).input()) == LexOut::Fail(p),
            },
    {
        self.scanning.push(' ');
        let ghost s = self.scanning@;
        let ghost full = lex_text(old(self).input());
        proof {
            assert(s == old(self).input().push(' '));
            assert(s[s.len() - 1] == ' ');
            assert(tokens_view(self.scanned@) =~= Seq::<(TokenView, u64, u64)>::empty());
            assert(full == lex_from(s, 0, 1, 1));
        }
        while self.position < self.scanning.len()
            invariant
                full == lex_text(old(self).input()),
                self.scanning@ == s,
                s.len() < u64::MAX - 2,
                s[s.len() - 1] == ' ',
                self.position <= s.len(),
                1 <= self.line && self.line <= self.position + 1,
                1 <= self.line_pos && self.line_pos <= self.position + 1,
                lex_combine(
                    tokens_view(self.scanned@),
                    lex_from(s, self.position as nat, self.line, self.line_pos),
                ) == full,
            decreases s.len() - self.position,
        {
            let ghost i0 = self.position as nat;
            let ghost line0 = self.line;
            let ghost col0 = self.line_pos;
            let ghost pre = tokens_view(self.scanned@);
            let tline = self.line;
            let tcol = self.line_pos;
            let c = self.now();
            if is_digit_exec(c) {
                proof {
                    lemma_digit_run_end(s, i0);
                    if digit_run_end(s, i0) == s.len() {
                        assert(is_digit(s[s.len() - 1]));
                        assert(false);
                    }
                }
                let ghost j = digit_run_end(s, i0);
                let ghost scanned0 = self.scanned@;
                let mut value: i64 = 0;
                loop
                    invariant
                        self.scanning@ == s,
                        self.scanned@ == scanned0,
                        i0 <= self.position as nat <= j,
                        j < s.len(),
                        j == digit_run_end(s, i0),
                        forall|k: int| i0 <= k < j ==> is_digit(s[k]),
                        !is_digit(s[j as int]),
                        value == digits_value(s, i0, self.position as nat, 0),
                        self.line == line0,
                        self.line_pos == col0 + (self.position as nat - i0),
                        col0 <= i0 + 1,
                        s.len() < u64::MAX - 2,
                    ensures
                        self.scanning@ == s,
                        self.scanned@ == scanned0,
                        self.position as nat == j,
                        value == digits_value(s, i0, j, 0),
                        self.line == line0,
                        self.line_pos == col0 + (j - i0),
                    decreases j - self.position,
                {
                    let cc = self.now();
                    if !is_digit_exec(cc) {
                        proof {
                            if (self.position as nat) < j {
                                assert(is_digit(s[self.position as int]));
                                assert(false);
                            }
                        }
                        break ;
                    }
                    proof {
                        if self.position as nat == j {
                            assert(false);
                        }
                        lemma_digits_value_snoc(s, i0, self.position as nat, 0);
                    }
                    value = value.wrapping_mul(10i64).wrapping_add(digit_val_exec(cc));
                    self.advance();
                }
                self.scanned.push((Tokens::Integer(value), tline, tcol));
                proof {
                    assert(lex_from(s, i0, line0, col0) == lex_prepend(
                        (TokenView::Integer(value), line0, col0),
                        lex_from(s, (i0 + (j - i0)) as nat, line0, (col0 + (j - i0)) as u64),
                    ));
                    lemma_lex_step(
                        pre,
                        (TokenView::Integer(value), line0, col0),
                        s,
                        i0,
                        line0,
                        col0,
                        (j - i0) as nat,
                        full,
                    );
                    assert(tokens_view(self.scanned@) =~= pre.push(
                        (TokenView::Integer(value), line0, col0),
                    ));
                }
            } else if is_word_char_exec(c) {
                proof {
                    lemma_word_run_end(s, i0);
                    if word_run_end(s, i0) == s.len() {
                        assert(is_word_char(s[s.len() - 1]));
                        assert(false);
                    }
                }
                let ghost j = word_run_end(s, i0);
                let ghost scanned0 = self.scanned@;
                let mut collected: Vec<char> = Vec::new();
                loop
                    invariant
                        self.scanning@ == s,
                        self.scanned@ == scanned0,
                        i0 <= self.position as nat <= j,
                        j < s.len(),
                        j == word_run_end(s, i0),
                        forall|k: int| i0 <= k < j ==> is_word_char(s[k]),
                        !is_word_char(s[j as int]),
                        collected@ == s.subrange(i0 as int, self.position as int),
                        self.line == line0,
                        self.line_pos == col0 + (self.position as nat - i0),
                        col0 <= i0 + 1,
                        s.len() < u64::MAX - 2,
                    ensures
                        self.scanning@ == s,
                        self.scanned@ == scanned0,
                        self.position as nat == j,
                        collected@ == s.subrange(i0 as int, j as int),
                        self.line == line0,
                        self.line_pos == col0 + (j - i0),
                    decreases j - self.position,
                {
                    let cc = self.now();
                    if !is_word_char_exec(cc) {
                        proof {
                            if (self.position as nat) < j {
                                assert(is_word_char(s[self.position as int]));
                                assert(false);
                            }
                        }
                        break ;
                    }
                    proof {
                        if self.position as nat == j {
                            assert(false);
                        }
                    }
                    collected.push(cc);
                    self.advance();
                    proof {
                        assert(collected@ =~= s.subrange(i0 as int, self.position as int));
                    }
                }
                let word = crate::text::chars_to_string(&collected);
                let t = classify_word(word);
                let ghost tv = t@;
                self.scanned.push((t, tline, tcol));
                proof {
                    assert(tv == word_token(s.subrange(i0 as int, j as int)));
                    assert(lex_from(s, i0, line0, col0) == lex_prepend(
                        (tv, line0, col0),
                        lex_from(s, (i0 + (j - i0)) as nat, line0, (col0 + (j - i0)) as u64),
                    ));
                    lemma_lex_step(pre, (tv, line0, col0), s, i0, line0, col0, (j - i0) as nat, full);
                    assert(tokens_view(self.scanned@) =~= pre.push((tv, line0, col0)));
                }
            } else if c == '\n' {
                self.advance();
                self.line = self.line + 1;
                self.line_pos = 1;
                proof {
                    assert(lex_from(s, i0, line0, col0) == lex_from(
                        s,
                        i0 + 1,
                        (line0 + 1) as u64,
                        1,
                    ));
                }
            } else if c == ' ' || c == '\t' || c == '\r' {
                self.advance();
                proof {
                    assert(lex_from(s, i0, line0, col0) == lex_from(
                        s,
                        i0 + 1,
                        line0,
                        (col0 + 1) as u64,
                    ));
                }
            } else {
                let two: Option<Tokens> = match c {
                    '|' => {
                        if let Some('|') = self.peek() {
                            Some(Tokens::LogicalOr)
                        } else {
                            None
                        }
                    },
                    '&' => {
                        if let Some('&') = self.peek() {
                            Some(Tokens::LogicalAnd)
                        } else {
                            None
                        }
                    },
                    '>' => {
                        if let Some('=') = self.peek() {
                            Some(Tokens::GreaterEqual)
                        } else {
                            None
                        }
                    },
                    '<' => {
                        if let Some('=') = self.peek() {
                            Some(Tokens::LesserEqual)
                        } else {
                            None
                        }
                    },
                    '=' => {
                        if let Some('=') = self.peek() {
                            Some(Tokens::Equal)
                        } else {
                            None
                        }
                    },
                    '!' => {
                        if let Some('=') = self.peek() {
                            Some(Tokens::NotEqual)
                        } else {
                            None
                        }
                    },
                    _ => None,
                };
                match two {
                    Some(t) => {
                        let ghost tv = t@;
                        proof {
                            assert(lex_from(s, i0, line0, col0) == lex_prepend(
                                (tv, line0, col0),
                                lex_from(s, i0 + 2, line0, (col0 + 2) as u64),
                            ));
                        }
                        self.scanned.push((t, tline, tcol));
                        self.advance();
                        self.advance();
                        proof {
                            lemma_lex_step(pre, (tv, line0, col0), s, i0, line0, col0, 2, full);
                            assert(tokens_view(self.scanned@) =~= pre.push((tv, line0, col0)));
                        }
                    },
                    None => {
                        let one: Option<Tokens> = match c {
                            '|' => Some(Tokens::BitwiseOr),
                            '&' => Some(Tokens::BitwiseAnd),
                            '>' => Some(Tokens::Greater),
                            '<' => Some(Tokens::Lesser),
                            '=' => Some(Tokens::Assign),
                            '!' => Some(Tokens::LogicalNot),
                            '^' => Some(Tokens::BitwiseXor),
                            '~' => Some(Tokens::BitwiseNot),
                            '+' => Some(Tokens::Plus),
                            '-' => Some(Tokens::Minus),
                            '*' => Some(Tokens::Star),
                            '/' => Some(Tokens::Slash),
                            '%' => Some(Tokens::Percent),
                            '(' => Some(Tokens::LeftParen),
                            ')' => Some(Tokens::RightParen),
                            '{' => Some(Tokens::LeftBrace),
                            '}' => Some(Tokens::RightBrace),
                            ';' => Some(Tokens::SemiColon),
                            _ => None,
                        };
                        match one {
                            Some(t) => {
                                let ghost tv = t@;
                                proof {
                                    assert(lex_from(s, i0, line0, col0) == lex_prepend(
                                        (tv, line0, col0),
                                        lex_from(s, i0 + 1, line0, (col0 + 1) as u64),
                                    ));
                                }
                                self.scanned.push((t, tline, tcol));
                                self.advance();
                                proof {
                                    lemma_lex_step(
                                        pre,
                                        (tv, line0, col0),
                                        s,
                                        i0,
                                        line0,
                                        col0,
                                        1,
                                        full,
                                    );
                                    assert(tokens_view(self.scanned@) =~= pre.push(
                                        (tv, line0, col0),
                                    ));
                                }
                            },
                            None => {
                                proof {
                                    assert(lex_from(s, i0, line0, col0) == LexOut::Fail(
                                        (line0, col0),
                                    ));
                                }
                                return Err((self.line, self.line_pos));
                            },
                        }
                    },
                }
            }
        }
        proof {
            assert(lex_from(s, self.position as nat, self.line, self.line_pos) == LexOut::Toks(
                Seq::empty(),
                (self.line, self.line_pos),
            ));
            assert(tokens_view(self.scanned@) + Seq::<(TokenView, u64, u64)>::empty()
                =~= tokens_view(self.scanned@));
        }
        Ok(())
    }
}

} // verus!
