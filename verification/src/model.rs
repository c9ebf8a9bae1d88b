//! Mathematical model of the scanner.
//!
//! Every executable routine of the lexer is specified against the functions
//! here: `skip_ws` says where whitespace skipping stops and how many line
//! terminators it crosses, `scan_at` says which single token starts at a
//! given position and where it ends, and `lex_all` says what the whole
//! token stream of a source buffer is.

use vstd::prelude::*;
use crate::token::{SpecLit, SpecToken, TokenType};

verus! {

// ---------------------------------------------------------------------------
// Character classes
// ---------------------------------------------------------------------------

/// Whitespace: space, tab, and the line terminators.
pub open spec fn is_space_char(c: char) -> bool {
    c == ' ' || c == '\t' || c == '\n' || c == '\r'
}

/// Decimal digit.
pub open spec fn is_digit_char(c: char) -> bool {
    48 <= (c as u32) && (c as u32) <= 57
}

/// ASCII letter.
pub open spec fn is_alpha_char(c: char) -> bool {
    (65 <= (c as u32) && (c as u32) <= 90) || (97 <= (c as u32) && (c as u32) <= 122)
}

/// A character that may start an identifier: a letter or an underscore.
pub open spec fn is_ident_start_char(c: char) -> bool {
    is_alpha_char(c) || c == '_'
}

/// A character that may continue an identifier.
pub open spec fn is_ident_char(c: char) -> bool {
    is_ident_start_char(c) || is_digit_char(c)
}

/// A character that belongs to a numeric run: a digit or a dot.
pub open spec fn is_num_char(c: char) -> bool {
    is_digit_char(c) || c == '.'
}

/// Single-character operators and punctuation.
pub open spec fn is_operator_char(c: char) -> bool {
    c == '+' || c == '-' || c == '*' || c == '/' || c == '%' || c == '^' || c == ';' || c == '('
        || c == ')'
}

/// The fixed token kind of an operator character.
pub open spec fn operator_kind(c: char) -> TokenType {
    if c == '+' {
        TokenType::PLUS
    } else if c == '-' {
        TokenType::MINUS
    } else if c == '*' {
        TokenType::ASTERISK
    } else if c == '/' {
        TokenType::SLASH
    } else if c == '%' {
        TokenType::PERCENT
    } else if c == '^' {
        TokenType::POWER
    } else if c == ';' {
        TokenType::SEMICOLON
    } else if c == '(' {
        TokenType::LPAREN
    } else {
        TokenType::RPAREN
    }
}

// ---------------------------------------------------------------------------
// Whitespace skipping
// ---------------------------------------------------------------------------

/// Position and line after skipping whitespace from `pos`.
///
/// A lone `'\n'`, a lone `'\r'`, and the pair `'\r'`/`'\n'` each advance the
/// line counter by exactly one; space and tab leave it unchanged. Skipping
/// stops, without consuming, at the first non-whitespace character or at the
/// end of the buffer.
pub open spec fn skip_ws(src: Seq<char>, pos: nat, line: nat) -> (nat, nat)
    decreases src.len() - pos,
{
    if pos >= src.len() {
        (pos, line)
    } else if src[pos as int] == '\r' {
        if pos + 1 < src.len() && src[pos as int + 1] == '\n' {
            skip_ws(src, pos + 2, line + 1)
        } else {
            skip_ws(src, pos + 1, line + 1)
        }
    } else if src[pos as int] == '\n' {
        skip_ws(src, pos + 1, line + 1)
    } else if src[pos as int] == ' ' || src[pos as int] == '\t' {
        skip_ws(src, pos + 1, line)
    } else {
        (pos, line)
    }
}

/// Bounds of `skip_ws`: the cursor never moves backwards nor past the end,
/// the line counter grows by at most one per character crossed, and the
/// stopping character (if any) is not whitespace.
pub proof fn lemma_skip_ws(src: Seq<char>, pos: nat, line: nat)
    requires
        pos <= src.len(),
    ensures
        pos <= skip_ws(src, pos, line).0 <= src.len(),
        line <= skip_ws(src, pos, line).1,
        skip_ws(src, pos, line).1 - line <= skip_ws(src, pos, line).0 - pos,
        skip_ws(src, pos, line).0 < src.len() ==> !is_space_char(
            src[skip_ws(src, pos, line).0 as int],
        ),
    decreases src.len() - pos,
{
    if pos >= src.len() {
    } else if src[pos as int] == '\r' {
        if pos + 1 < src.len() && src[pos as int + 1] == '\n' {
            lemma_skip_ws(src, pos + 2, line + 1);
        } else {
            lemma_skip_ws(src, pos + 1, line + 1);
        }
    } else if src[pos as int] == '\n' {
        lemma_skip_ws(src, pos + 1, line + 1);
    } else if src[pos as int] == ' ' || src[pos as int] == '\t' {
        lemma_skip_ws(src, pos + 1, line);
    }
}

// ---------------------------------------------------------------------------
// Maximal character runs
// ---------------------------------------------------------------------------

/// First index at or after `pos` whose character fails `pred`, or the end of
/// the buffer: the end of the maximal run of `pred`-characters at `pos`.
pub open spec fn run_end(src: Seq<char>, pos: nat, pred: spec_fn(char) -> bool) -> nat
    decreases src.len() - pos,
{
    if pos < src.len() && pred(src[pos as int]) {
        run_end(src, pos + 1, pred)
    } else {
        pos
    }
}

pub open spec fn num_pred() -> spec_fn(char) -> bool {
    |c: char| is_num_char(c)
}

pub open spec fn ident_pred() -> spec_fn(char) -> bool {
    |c: char| is_ident_char(c)
}

pub open spec fn not_quote_pred() -> spec_fn(char) -> bool {
    |c: char| c != '"'
}

/// Characterization of `run_end`: every character of the run satisfies the
/// predicate and the run is maximal.
pub proof fn lemma_run_end(src: Seq<char>, pos: nat, pred: spec_fn(char) -> bool)
    requires
        pos <= src.len(),
    ensures
        pos <= run_end(src, pos, pred) <= src.len(),
        forall|i: int| pos <= i < run_end(src, pos, pred) ==> pred(src[i]),
        run_end(src, pos, pred) < src.len() ==> !pred(src[run_end(src, pos, pred) as int]),
    decreases src.len() - pos,
{
    if pos < src.len() && pred(src[pos as int]) {
        lemma_run_end(src, pos + 1, pred);
    }
}

/// `run_end` is determined by its characterization: any maximal run of
/// `pred`-characters starting at `pos` ends exactly at `run_end`.
pub proof fn lemma_run_end_unique(src: Seq<char>, pos: nat, pred: spec_fn(char) -> bool, e: nat)
    requires
        pos <= e <= src.len(),
        forall|i: int| pos <= i < e ==> pred(src[i]),
        e < src.len() ==> !pred(src[e as int]),
    ensures
        run_end(src, pos, pred) == e,
    decreases e - pos,
{
    if pos < e {
        assert(pred(src[pos as int]));
        lemma_run_end_unique(src, pos + 1, pred, e);
    }
}

// ---------------------------------------------------------------------------
// Digit runs and their values
// ---------------------------------------------------------------------------

/// Numeric value of a digit character.
pub open spec fn digit_of(c: char) -> int {
    (c as u32) - 48
}

/// Base-10 value of a digit sequence (0 for the empty sequence).
pub open spec fn digits_val(s: Seq<char>) -> int
    decreases s.len(),
{
    if s.len() == 0 {
        0
    } else {
        digits_val(s.drop_last()) * 10 + digit_of(s.last())
    }
}

pub open spec fn all_digits(s: Seq<char>) -> bool {
    forall|i: int| 0 <= i < s.len() ==> is_digit_char(s[i])
}

pub proof fn lemma_digits_val_nonneg(s: Seq<char>)
    requires
        all_digits(s),
    ensures
        digits_val(s) >= 0,
    decreases s.len(),
{
    if s.len() > 0 {
        assert(all_digits(s.drop_last()));
        lemma_digits_val_nonneg(s.drop_last());
        assert(is_digit_char(s.last()));
    }
}

/// Appending one digit multiplies the value by ten and adds the digit.
pub proof fn lemma_digits_val_snoc(s: Seq<char>, c: char)
    ensures
        digits_val(s.push(c)) == digits_val(s) * 10 + digit_of(c),
{
    assert(s.push(c).drop_last() =~= s);
    assert(s.push(c).last() == c);
}

/// The value of a digit run dominates the value of any of its prefixes
/// taken within `src`: `digits_val(src[a..m]) <= digits_val(src[a..b])`.
pub proof fn lemma_digits_val_extend_ge(src: Seq<char>, a: int, m: int, b: int)
    requires
        0 <= a <= m <= b <= src.len(),
        forall|i: int| a <= i < b ==> is_digit_char(src[i]),
    ensures
        digits_val(src.subrange(a, m)) <= digits_val(src.subrange(a, b)),
    decreases b - m,
{
    if m < b {
        assert(src.subrange(a, m + 1) =~= src.subrange(a, m).push(src[m]));
        lemma_digits_val_snoc(src.subrange(a, m), src[m]);
        assert(all_digits(src.subrange(a, m)));
        lemma_digits_val_nonneg(src.subrange(a, m));
        assert(is_digit_char(src[m]));
        lemma_digits_val_extend_ge(src, a, m + 1, b);
    } else {
        assert(src.subrange(a, m) =~= src.subrange(a, b));
    }
}

// ---------------------------------------------------------------------------
// Numeric lexemes
// ---------------------------------------------------------------------------

/// A well-formed integer lexeme: a non-empty run of digits.
pub open spec fn int_shape(run: Seq<char>) -> bool {
    run.len() > 0 && all_digits(run)
}

/// A well-formed floating lexeme with its dot at index `k`: digits on both
/// sides of a single dot.
pub open spec fn float_shape_at(run: Seq<char>, k: int) -> bool {
    1 <= k <= run.len() - 2 && run[k] == '.' && (forall|j: int|
        0 <= j < run.len() && j != k ==> is_digit_char(run[j]))
}

/// A well-formed floating lexeme: exactly one dot, digits on both sides.
pub open spec fn float_shape(run: Seq<char>) -> bool {
    exists|k: int| float_shape_at(run, k)
}

/// Index of the dot of a well-formed floating lexeme.
pub open spec fn float_dot(run: Seq<char>) -> int {
    choose|k: int| float_shape_at(run, k)
}

/// The dot of a well-formed floating lexeme is unique, so `float_dot`
/// returns exactly the witnessed index.
pub proof fn lemma_float_dot(run: Seq<char>, k: int)
    requires
        float_shape_at(run, k),
    ensures
        float_shape(run),
        float_dot(run) == k,
{
    assert(float_shape(run));
    let k2 = float_dot(run);
    assert(float_shape_at(run, k2));
    if k2 != k {
        assert(is_digit_char(run[k2]));
        assert(run[k2] == '.');
        assert(false);
    }
}

// ---------------------------------------------------------------------------
// Scanning one token
// ---------------------------------------------------------------------------

pub open spec fn spec_tok(kind: TokenType, lit: SpecLit, line: nat, char_index: nat) -> SpecToken {
    SpecToken { kind, lit, line, char_index }
}

/// End of the numeric run starting at `pos`.
pub open spec fn num_run_end(src: Seq<char>, pos: nat) -> nat {
    run_end(src, pos, num_pred())
}

/// End of the identifier run starting at `pos`.
pub open spec fn ident_run_end(src: Seq<char>, pos: nat) -> nat {
    run_end(src, pos, ident_pred())
}

/// Index of the closing quote of a string literal whose opening quote is at
/// `pos`, or the end of the buffer if the literal is unterminated.
pub open spec fn string_close(src: Seq<char>, pos: nat) -> nat {
    run_end(src, pos + 1, not_quote_pred())
}

/// Token produced for the numeric run starting at `pos`, and its end.
///
/// The run is the maximal stretch of digits and dots. A pure digit run is an
/// `INT`; digits around a single dot are a `FLOAT`; anything else — a
/// trailing dot, a second dot — is a `MalformedNumber`, reported as one
/// `ILLEGAL` token carrying the whole run. A value whose digits exceed
/// `i64::MAX` is likewise reported as `ILLEGAL` over the whole run.
pub open spec fn scan_number_at(src: Seq<char>, pos: nat, line: nat) -> (SpecToken, nat) {
    let e = num_run_end(src, pos);
    let run = src.subrange(pos as int, e as int);
    if int_shape(run) {
        if digits_val(run) <= i64::MAX {
            (spec_tok(TokenType::INT, SpecLit::Int(digits_val(run)), line, pos), e)
        } else {
            (spec_tok(TokenType::ILLEGAL, SpecLit::Str(run), line, pos), e)
        }
    } else if float_shape(run) {
        let k = float_dot(run);
        let ip = digits_val(run.subrange(0, k));
        let fr = digits_val(run.subrange(k + 1, run.len() as int));
        if ip <= i64::MAX && fr <= i64::MAX {
            (
                spec_tok(
                    TokenType::FLOAT,
                    SpecLit::Float { int_part: ip, frac: fr, frac_len: (run.len() - k - 1) as nat },
                    line,
                    pos,
                ),
                e,
            )
        } else {
            (spec_tok(TokenType::ILLEGAL, SpecLit::Str(run), line, pos), e)
        }
    } else {
        (spec_tok(TokenType::ILLEGAL, SpecLit::Str(run), line, pos), e)
    }
}

/// Token produced for the string literal whose opening quote is at `pos`,
/// and its end.
///
/// Backslashes have no special meaning: there are no escape sequences, and
/// every character between the quotes is taken verbatim. An unterminated
/// literal is one `ILLEGAL` token spanning from the opening quote to the end
/// of the input, carrying the characters after the quote.
pub open spec fn scan_string_at(src: Seq<char>, pos: nat, line: nat) -> (SpecToken, nat) {
    let q = string_close(src, pos);
    if q < src.len() {
        (
            spec_tok(
                TokenType::STRING,
                SpecLit::Str(src.subrange(pos as int + 1, q as int)),
                line,
                pos,
            ),
            q + 1,
        )
    } else {
        (
            spec_tok(
                TokenType::ILLEGAL,
                SpecLit::Str(src.subrange(pos as int + 1, src.len() as int)),
                line,
                pos,
            ),
            src.len(),
        )
    }
}

/// The single token starting at `pos` (which must not hold whitespace), and
/// the position one past it.
///
/// Dispatch order: end of input, operators, numbers, identifiers, string
/// literals, and finally a one-character `ILLEGAL` token. The language
/// defines no reserved keywords, so every identifier lexeme is
/// `IDENTIFIER`.
pub open spec fn scan_at(src: Seq<char>, pos: nat, line: nat) -> (SpecToken, nat) {
    if pos >= src.len() {
        (spec_tok(TokenType::EOF, SpecLit::Empty, line, src.len()), pos)
    } else {
        let c = src[pos as int];
        if is_operator_char(c) {
            (spec_tok(operator_kind(c), SpecLit::Empty, line, pos), pos + 1)
        } else if is_digit_char(c) {
            scan_number_at(src, pos, line)
        } else if is_ident_start_char(c) {
            let e = ident_run_end(src, pos);
            (
                spec_tok(
                    TokenType::IDENTIFIER,
                    SpecLit::Str(src.subrange(pos as int, e as int)),
                    line,
                    pos,
                ),
                e,
            )
        } else if c == '"' {
            scan_string_at(src, pos, line)
        } else {
            (spec_tok(TokenType::ILLEGAL, SpecLit::Char(c), line, pos), pos + 1)
        }
    }
}

/// A data token consumes at least one character and never runs past the end
/// of the buffer.
pub proof fn lemma_scan_at_bounds(src: Seq<char>, pos: nat, line: nat)
    requires
        pos < src.len(),
    ensures
        pos < scan_at(src, pos, line).1 <= src.len(),
        scan_at(src, pos, line).0.kind != TokenType::EOF,
{
    let c = src[pos as int];
    if is_operator_char(c) {
    } else if is_digit_char(c) {
        lemma_run_end(src, pos, num_pred());
        assert(num_pred()(c));
        assert(num_run_end(src, pos) == run_end(src, pos + 1, num_pred()));
        lemma_run_end(src, pos + 1, num_pred());
    } else if is_ident_start_char(c) {
        lemma_run_end(src, pos, ident_pred());
        assert(ident_pred()(c));
        assert(ident_run_end(src, pos) == run_end(src, pos + 1, ident_pred()));
        lemma_run_end(src, pos + 1, ident_pred());
    } else if c == '"' {
        lemma_run_end(src, pos + 1, not_quote_pred());
    }
}

// ---------------------------------------------------------------------------
// The whole token stream
// ---------------------------------------------------------------------------

/// The token stream of `src` scanned from `pos` on line `line`: whitespace
/// is skipped before every token, and the stream always ends with one `EOF`
/// token.
pub open spec fn lex_all(src: Seq<char>, pos: nat, line: nat) -> Seq<SpecToken>
    decreases src.len() - pos,
{
    let p = skip_ws(src, pos, line).0;
    let l = skip_ws(src, pos, line).1;
    if p >= src.len() {
        seq![spec_tok(TokenType::EOF, SpecLit::Empty, l, src.len())]
    } else {
        proof {
            if pos <= src.len() {
                lemma_skip_ws(src, pos, line);
            }
            lemma_scan_at_bounds(src, p, l);
        }
        seq![scan_at(src, p, l).0] + lex_all(src, scan_at(src, p, l).1, l)
    }
}

} // verus!
