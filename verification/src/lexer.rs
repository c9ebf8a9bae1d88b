//! The executable lexer.
//!
//! A `Lexer` owns a source buffer of decoded characters and a cursor: the
//! absolute character position and the current 0-based line number. Every
//! operation is specified against the model in `crate::model`.

use vstd::prelude::*;
use vstd::string::StrSliceExecFns;
use crate::model::{
    digits_val, float_dot, float_shape, float_shape_at, ident_pred, ident_run_end, int_shape,
    is_digit_char, is_ident_char, is_ident_start_char, is_num_char, is_operator_char,
    is_space_char, lemma_digits_val_extend_ge, lemma_digits_val_snoc, lemma_float_dot,
    lemma_run_end_unique, lemma_scan_at_bounds, lemma_skip_ws, lex_all,
    not_quote_pred, num_pred, operator_kind, scan_at, scan_number_at, scan_string_at, skip_ws,
    spec_tok, string_close,
};
use crate::token::{SpecLit, SpecToken, Token, TokenLiteral, TokenType};

verus! {

/// Relies on `String::push`: appends the given character to the end of the
/// string.
#[verifier::external_body]
fn push_char(s: &mut String, c: char)
    ensures
        final(s)@ == old(s)@.push(c),
{
    s.push(c);
}

/// The scanner state: the full source (read-only after construction) and
/// the cursor into it.
pub struct Lexer {
    source: Vec<char>,
    position: usize,
    line_no: usize,
}

impl Lexer {
    /// The source buffer as a sequence of characters.
    pub closed spec fn src(&self) -> Seq<char> {
        self.source@
    }

    /// The cursor: index of the next unconsumed character.
    pub closed spec fn pos(&self) -> nat {
        self.position as nat
    }

    /// The current 0-based line number.
    pub closed spec fn line(&self) -> nat {
        self.line_no as nat
    }

    /// Well-formedness: the cursor stays within the buffer and the line
    /// counter never exceeds the number of characters consumed.
    pub open spec fn wf(&self) -> bool {
        self.pos() <= self.src().len() && self.line() <= self.pos()
    }

    /// Creates a lexer over `source`, decoded to characters, with the
    /// cursor at the start of line 0.
    pub fn new(source: &str) -> (lex: Lexer)
        ensures
            lex.wf(),
            lex.src() == source@,
            lex.pos() == 0,
            lex.line() == 0,
    {
        let n = source.unicode_len();
        let mut chars: Vec<char> = Vec::new();
        let mut i: usize = 0;
        while i < n
            invariant
                i <= n,
                n == source@.len(),
                chars@ =~= source@.subrange(0, i as int),
            decreases n - i,
        {
            chars.push(source.get_char(i));
            i = i + 1;
        }
        assert(chars@ =~= source@);
        Lexer { source: chars, position: 0, line_no: 0 }
    }

    /// The character under the cursor, without advancing; `None` at the end
    /// of the input.
    pub fn current_char(&self) -> (r: Option<char>)
        ensures
            r == if self.pos() < self.src().len() {
                Some(self.src()[self.pos() as int])
            } else {
                Option::<char>::None
            },
    {
        if self.position < self.source.len() {
            Some(self.source[self.position])
        } else {
            None
        }
    }

    /// The character one past the cursor, without advancing; `None` past
    /// the end of the input.
    pub fn next_char(&self) -> (r: Option<char>)
        ensures
            r == if self.pos() + 1 < self.src().len() {
                Some(self.src()[self.pos() as int + 1])
            } else {
                Option::<char>::None
            },
    {
        if self.position < self.source.len() && self.position + 1 < self.source.len() {
            Some(self.source[self.position + 1])
        } else {
            None
        }
    }

    /// Returns the character under the cursor and advances past it; fails
    /// with `Err` exactly when the input is already exhausted, leaving the
    /// state unchanged. The line counter is not touched.
    pub fn advance(&mut self) -> (r: Result<char, ()>)
        requires
            old(self).wf(),
        ensures
            final(self).wf(),
            final(self).src() == old(self).src(),
            final(self).line() == old(self).line(),
            old(self).pos() < old(self).src().len() ==> r == Result::<char, ()>::Ok(
                old(self).src()[old(self).pos() as int],
            ) && final(self).pos() == old(self).pos() + 1,
            old(self).pos() >= old(self).src().len() ==> r == Result::<char, ()>::Err(())
                && final(self).pos() == old(self).pos(),
    {
        if self.position >= self.source.len() {
            return Err(());
        }
        let c = self.source[self.position];
        self.position = self.position + 1;
        Ok(c)
    }

    /// Advances the cursor past whitespace, counting line terminators:
    /// `'\n'`, `'\r'`, and the pair `'\r'` `'\n'` each add exactly one line.
    /// Stops, without consuming, at the first non-whitespace character or
    /// at the end of the input.
    pub fn skip_whitespace(&mut self)
        requires
            old(self).wf(),
        ensures
            final(self).wf(),
            final(self).src() == old(self).src(),
            final(self).pos() == skip_ws(old(self).src(), old(self).pos(), old(self).line()).0,
            final(self).line() == skip_ws(old(self).src(), old(self).pos(), old(self).line()).1,
    {
        while self.position < self.source.len() && is_space(self.source[self.position])
            invariant
                self.wf(),
                self.src() == old(self).src(),
                skip_ws(self.src(), self.pos(), self.line()) == skip_ws(
                    old(self).src(),
                    old(self).pos(),
                    old(self).line(),
                ),
            decreases self.src().len() - self.pos(),
        {
            let c = self.source[self.position];
            if c == '\r' {
                self.position = self.position + 1;
                self.line_no = self.line_no + 1;
                match self.current_char() {
                    Some(n) => {
                        if n == '\n' {
                            self.position = self.position + 1;
                        }
                    },
                    None => {},
                }
            } else if c == '\n' {
                self.position = self.position + 1;
                self.line_no = self.line_no + 1;
            } else {
                self.position = self.position + 1;
            }
        }
    }
    /// The characters `[a, b)` of the source, collected into a `String`.
    fn substring_chars(&self, a: usize, b: usize) -> (s: String)
        requires
            a <= b <= self.src().len(),
        ensures
            s@ == self.src().subrange(a as int, b as int),
    {
        let mut s = String::new();
        let mut j: usize = a;
        while j < b
            invariant
                a <= j <= b <= self.src().len(),
                s@ == self.src().subrange(a as int, j as int),
            decreases b - j,
        {
            push_char(&mut s, self.source[j]);
            assert(s@ =~= self.src().subrange(a as int, j as int + 1));
            j = j + 1;
        }
        s
    }

    /// Base-10 value of the digit run `[a, b)` of the source, or `None`
    /// exactly when that value exceeds `i64::MAX`.
    fn digits_value(&self, a: usize, b: usize) -> (r: Option<i64>)
        requires
            a <= b <= self.src().len(),
            forall|i: int| a <= i < b ==> is_digit_char(self.src()[i]),
        ensures
            match r {
                Some(v) => v == digits_val(self.src().subrange(a as int, b as int)),
                None => digits_val(self.src().subrange(a as int, b as int)) > i64::MAX,
            },
    {
        let mut v: i64 = 0;
        let mut j: usize = a;
        while j < b
            invariant
                a <= j <= b <= self.src().len(),
                forall|i: int| a <= i < b ==> is_digit_char(self.src()[i]),
                0 <= v,
                v == digits_val(self.src().subrange(a as int, j as int)),
            decreases b - j,
        {
            let c = self.source[j];
            assert(is_digit_char(self.src()[j as int]));
            let d = (c as u32 - 48) as i64;
            proof {
                assert(self.src().subrange(a as int, j as int + 1) =~= self.src().subrange(
                    a as int,
                    j as int,
                ).push(self.src()[j as int]));
                lemma_digits_val_snoc(self.src().subrange(a as int, j as int), self.src()[j as int]);
            }
            if v > (i64::MAX - d) / 10 {
                proof {
                    lemma_digits_val_extend_ge(self.src(), a as int, j as int + 1, b as int);
                }
                return None;
            }
            v = v * 10 + d;
            j = j + 1;
        }
        Some(v)
    }

    /// Scans the identifier starting under the cursor: the maximal run of
    /// letters, digits and underscores. The language defines no reserved
    /// keywords, so the token kind is always `IDENTIFIER` and the literal
    /// is the lexeme verbatim.
    fn scan_identifier(&mut self) -> (t: Token)
        requires
            old(self).wf(),
            old(self).pos() < old(self).src().len(),
            is_ident_start_char(old(self).src()[old(self).pos() as int]),
        ensures
            final(self).wf(),
            final(self).src() == old(self).src(),
            final(self).line() == old(self).line(),
            final(self).pos() == ident_run_end(old(self).src(), old(self).pos()),
            t@ == spec_tok(
                TokenType::IDENTIFIER,
                SpecLit::Str(
                    old(self).src().subrange(
                        old(self).pos() as int,
                        ident_run_end(old(self).src(), old(self).pos()) as int,
                    ),
                ),
                old(self).line(),
                old(self).pos(),
            ),
    {
        let start = self.position;
        while self.position < self.source.len() && is_ident(self.source[self.position])
            invariant
                self.wf(),
                self.src() == old(self).src(),
                self.line() == old(self).line(),
                start <= self.pos(),
                start == old(self).pos(),
                forall|i: int| start <= i < self.pos() ==> is_ident_char(self.src()[i]),
            decreases self.src().len() - self.pos(),
        {
            self.position = self.position + 1;
        }
        proof {
            assert(forall|i: int| start <= i < self.pos() ==> ident_pred()(self.src()[i]));
            assert(self.pos() < self.src().len() ==> !ident_pred()(
                self.src()[self.pos() as int],
            ));
            lemma_run_end_unique(self.src(), start as nat, ident_pred(), self.pos());
        }
        let s = self.substring_chars(start, self.position);
        Token {
            kind: TokenType::IDENTIFIER,
            literal: TokenLiteral::Str(s),
            line_no: self.line_no,
            char_index: start,
        }
    }

    /// Scans the numeric lexeme starting under the cursor: the maximal run
    /// of digits and dots. A pure digit run yields `INT`; digits around a
    /// single interior dot yield `FLOAT`; any other run — a trailing dot, a
    /// second dot — is malformed and yields one `ILLEGAL` token carrying
    /// the whole run, as does a part whose digits exceed `i64::MAX`.
    fn scan_number(&mut self) -> (t: Token)
        requires
            old(self).wf(),
            old(self).pos() < old(self).src().len(),
            is_digit_char(old(self).src()[old(self).pos() as int]),
        ensures
            final(self).wf(),
            final(self).src() == old(self).src(),
            final(self).line() == old(self).line(),
            t@ == scan_number_at(old(self).src(), old(self).pos(), old(self).line()).0,
            final(self).pos() == scan_number_at(old(self).src(), old(self).pos(), old(self).line()).1,
    {
        let start = self.position;
        while self.position < self.source.len() && is_num(self.source[self.position])
            invariant
                self.wf(),
                self.src() == old(self).src(),
                self.line() == old(self).line(),
                start == old(self).pos(),
                start <= self.pos(),
                forall|i: int| start <= i < self.pos() ==> is_num_char(self.src()[i]),
            decreases self.src().len() - self.pos(),
        {
            self.position = self.position + 1;
        }
        let e = self.position;
        proof {
            assert(forall|i: int| start <= i < e ==> num_pred()(self.src()[i]));
            assert(e < self.src().len() ==> !num_pred()(self.src()[e as int]));
            lemma_run_end_unique(self.src(), start as nat, num_pred(), e as nat);
        }
        assert(start < e);
        let ghost run = self.src().subrange(start as int, e as int);

        // locate the first dot of the run and detect any second one
        let mut dot: usize = e;
        let mut extra: bool = false;
        let mut j: usize = start;
        while j < e
            invariant
                start <= j <= e <= self.src().len(),
                dot == e || (start <= dot && (dot as int) < j && self.src()[dot as int] == '.'),
                !extra ==> forall|i: int|
                    start <= i < j && i != dot ==> self.src()[i] != '.',
                extra ==> (dot as int) < e && exists|i: int|
                    start <= i < j && i != dot && self.src()[i] == '.',
            decreases e - j,
        {
            if self.source[j] == '.' {
                if dot == e {
                    dot = j;
                } else {
                    extra = true;
                }
            }
            j = j + 1;
        }

        if dot == e {
            // a pure digit run
            proof {
                assert forall|i: int| 0 <= i < run.len() implies is_digit_char(run[i]) by {
                    assert(run[i] == self.src()[start + i]);
                    assert(is_num_char(self.src()[start + i]));
                    assert(self.src()[start + i] != '.');
                }
                assert(int_shape(run));
            }
            match self.digits_value(start, e) {
                Some(v) => Token {
                    kind: TokenType::INT,
                    literal: TokenLiteral::Int(v),
                    line_no: self.line_no,
                    char_index: start,
                },
                None => {
                    let s = self.substring_chars(start, e);
                    Token {
                        kind: TokenType::ILLEGAL,
                        literal: TokenLiteral::Str(s),
                        line_no: self.line_no,
                        char_index: start,
                    }
                },
            }
        } else {
            // the run holds a dot; the run starts with a digit, so the dot
            // is interior or trailing
            proof {
                assert(self.src()[dot as int] == '.');
                assert(is_digit_char(self.src()[start as int]));
                assert(start < dot);
                assert(run[dot - start] == '.');
                assert(!is_digit_char(run[dot - start]));
                assert(!int_shape(run));
            }
            if !extra && dot + 1 < e {
                // exactly one interior dot: a float
                let ghost k = dot - start;
                proof {
                    assert forall|jj: int| 0 <= jj < run.len() && jj != k implies is_digit_char(
                        run[jj],
                    ) by {
                        assert(run[jj] == self.src()[start + jj]);
                        assert(is_num_char(self.src()[start + jj]));
                        assert(self.src()[start + jj] != '.');
                    }
                    assert(float_shape_at(run, k));
                    lemma_float_dot(run, k);
                    assert(run.subrange(0, k) =~= self.src().subrange(start as int, dot as int));
                    assert(run.subrange(k + 1, run.len() as int) =~= self.src().subrange(
                        dot as int + 1,
                        e as int,
                    ));
                    assert forall|i: int| start <= i < dot implies is_digit_char(
                        self.src()[i],
                    ) by {
                        assert(is_num_char(self.src()[i]));
                        assert(self.src()[i] != '.');
                    }
                    assert forall|i: int| dot + 1 <= i < e implies is_digit_char(
                        self.src()[i],
                    ) by {
                        assert(is_num_char(self.src()[i]));
                        assert(self.src()[i] != '.');
                    }
                }
                let ip = self.digits_value(start, dot);
                let fr = self.digits_value(dot + 1, e);
                match (ip, fr) {
                    (Some(a), Some(b)) => Token {
                        kind: TokenType::FLOAT,
                        literal: (TokenLiteral::Float {
                            int_part: a,
                            frac: b,
                            frac_len: e - dot - 1,
                        }),
                        line_no: self.line_no,
                        char_index: start,
                    },
                    _ => {
                        let s = self.substring_chars(start, e);
                        Token {
                            kind: TokenType::ILLEGAL,
                            literal: TokenLiteral::Str(s),
                            line_no: self.line_no,
                            char_index: start,
                        }
                    },
                }
            } else {
                // malformed: a trailing dot or a second dot
                proof {
                    if float_shape(run) {
                        let k2 = float_dot(run);
                        lemma_float_dot(run, k2);
                        assert(float_shape_at(run, k2));
                        if extra {
                            let i2 = choose|i: int|
                                start <= i < e && i != dot && self.src()[i] == '.';
                            assert(run[i2 - start] == '.');
                            if k2 == dot - start {
                                assert(is_digit_char(run[i2 - start]));
                            } else {
                                assert(is_digit_char(run[dot - start]));
                            }
                            assert(false);
                        } else {
                            // no second dot, so the dot must be trailing
                            assert(dot + 1 == e);
                            assert(k2 != dot - start);
                            assert(is_digit_char(run[dot - start]));
                            assert(false);
                        }
                    }
                }
                let s = self.substring_chars(start, e);
                Token {
                    kind: TokenType::ILLEGAL,
                    literal: TokenLiteral::Str(s),
                    line_no: self.line_no,
                    char_index: start,
                }
            }
        }
    }

    /// Scans the string literal whose opening quote is under the cursor.
    /// Characters between the quotes are taken verbatim — there are no
    /// escape sequences, and backslashes have no special meaning. An
    /// unterminated literal yields one `ILLEGAL` token spanning from the
    /// opening quote to the end of the input.
    fn scan_string(&mut self) -> (t: Token)
        requires
            old(self).wf(),
            old(self).pos() < old(self).src().len(),
            old(self).src()[old(self).pos() as int] == '"',
        ensures
            final(self).wf(),
            final(self).src() == old(self).src(),
            final(self).line() == old(self).line(),
            t@ == scan_string_at(old(self).src(), old(self).pos(), old(self).line()).0,
            final(self).pos() == scan_string_at(old(self).src(), old(self).pos(), old(self).line()).1,
    {
        let start = self.position;
        let n = self.source.len();
        assert(start < n);
        self.position = self.position + 1;
        while self.position < self.source.len() && self.source[self.position] != '"'
            invariant
                self.src() == old(self).src(),
                self.line() == old(self).line(),
                start == old(self).pos(),
                start + 1 <= self.pos() <= self.src().len(),
                forall|i: int| start + 1 <= i < self.pos() ==> self.src()[i] != '"',
            decreases self.src().len() - self.pos(),
        {
            self.position = self.position + 1;
        }
        proof {
            assert(forall|i: int|
                start + 1 <= i < self.pos() ==> not_quote_pred()(self.src()[i]));
            assert(self.pos() < self.src().len() ==> !not_quote_pred()(
                self.src()[self.pos() as int],
            ));
            lemma_run_end_unique(self.src(), (start + 1) as nat, not_quote_pred(), self.pos());
            assert(string_close(self.src(), start as nat) == self.pos());
        }
        if self.position < self.source.len() {
            let s = self.substring_chars(start + 1, self.position);
            self.position = self.position + 1;
            Token {
                kind: TokenType::STRING,
                literal: TokenLiteral::Str(s),
                line_no: self.line_no,
                char_index: start,
            }
        } else {
            let s = self.substring_chars(start + 1, self.position);
            Token {
                kind: TokenType::ILLEGAL,
                literal: TokenLiteral::Str(s),
                line_no: self.line_no,
                char_index: start,
            }
        }
    }
    /// Produces the next token of the stream: skips whitespace, then scans
    /// exactly one token. At the end of the input the token is `EOF`, with
    /// its `char_index` at the character count of the source; an unknown
    /// character yields `ILLEGAL` and scanning can continue after it.
    pub fn next_token(&mut self) -> (t: Token)
        requires
            old(self).wf(),
        ensures
            final(self).wf(),
            final(self).src() == old(self).src(),
            final(self).line() == skip_ws(old(self).src(), old(self).pos(), old(self).line()).1,
            t@ == scan_at(
                old(self).src(),
                skip_ws(old(self).src(), old(self).pos(), old(self).line()).0,
                skip_ws(old(self).src(), old(self).pos(), old(self).line()).1,
            ).0,
            final(self).pos() == scan_at(
                old(self).src(),
                skip_ws(old(self).src(), old(self).pos(), old(self).line()).0,
                skip_ws(old(self).src(), old(self).pos(), old(self).line()).1,
            ).1,
    {
        self.skip_whitespace();
        proof {
            lemma_skip_ws(old(self).src(), old(self).pos(), old(self).line());
        }
        match self.current_char() {
            None => Token {
                kind: TokenType::EOF,
                literal: TokenLiteral::Empty,
                line_no: self.line_no,
                char_index: self.source.len(),
            },
            Some(c) => {
                match operator_lookup(c) {
                    Some(kind) => {
                        let start = self.position;
                        let n = self.source.len();
                        assert(start < n);
                        self.position = self.position + 1;
                        Token {
                            kind,
                            literal: TokenLiteral::Empty,
                            line_no: self.line_no,
                            char_index: start,
                        }
                    },
                    None => {
                        if is_digit(c) {
                            self.scan_number()
                        } else if is_ident_start(c) {
                            self.scan_identifier()
                        } else if c == '"' {
                            self.scan_string()
                        } else {
                            let start = self.position;
                            let n = self.source.len();
                            assert(start < n);
                            self.position = self.position + 1;
                            Token {
                                kind: TokenType::ILLEGAL,
                                literal: TokenLiteral::Char(c),
                                line_no: self.line_no,
                                char_index: start,
                            }
                        }
                    },
                }
            },
        }
    }

    /// Scans the whole token stream: every token of the source in order,
    /// always ending with one `EOF` token. Afterwards the cursor stands at
    /// the end of the input.
    pub fn parse(&mut self) -> (toks: Vec<Token>)
        requires
            old(self).wf(),
        ensures
            final(self).wf(),
            final(self).src() == old(self).src(),
            final(self).pos() == final(self).src().len(),
            tokens_view(toks@) == lex_all(old(self).src(), old(self).pos(), old(self).line()),
    {
        let mut toks: Vec<Token> = Vec::new();
        loop
            invariant_except_break
                self.wf(),
                self.src() == old(self).src(),
                lex_all(old(self).src(), old(self).pos(), old(self).line()) == tokens_view(toks@)
                    + lex_all(self.src(), self.pos(), self.line()),
            ensures
                self.wf(),
                self.src() == old(self).src(),
                self.pos() == self.src().len(),
                tokens_view(toks@) == lex_all(old(self).src(), old(self).pos(), old(self).line()),
            decreases self.src().len() - self.pos(),
        {
            let ghost pre = *self;
            let t = self.next_token();
            let is_eof = t.kind == TokenType::EOF;
            proof {
                lemma_skip_ws(pre.src(), pre.pos(), pre.line());
                let p = skip_ws(pre.src(), pre.pos(), pre.line()).0;
                let l = skip_ws(pre.src(), pre.pos(), pre.line()).1;
                if p < pre.src().len() {
                    lemma_scan_at_bounds(pre.src(), p, l);
                }
                assert(tokens_view(toks@.push(t)) =~= tokens_view(toks@) + seq![t@]);
            }
            toks.push(t);
            if is_eof {
                proof {
                    assert(lex_all(pre.src(), pre.pos(), pre.line()) == seq![t@]);
                    assert(tokens_view(toks@) =~= lex_all(
                        old(self).src(),
                        old(self).pos(),
                        old(self).line(),
                    ));
                }
                break;
            }
            proof {
                assert(lex_all(old(self).src(), old(self).pos(), old(self).line())
                    =~= tokens_view(toks@) + lex_all(self.src(), self.pos(), self.line()));
            }
        }
        toks
    }
}

/// The views of a sequence of tokens.
pub open spec fn tokens_view(toks: Seq<Token>) -> Seq<SpecToken> {
    toks.map_values(|t: Token| t@)
}

/// Whitespace test, matching `is_space_char`.
fn is_space(c: char) -> (r: bool)
    ensures
        r == is_space_char(c),
{
    c == ' ' || c == '\t' || c == '\n' || c == '\r'
}

/// Digit test, matching `is_digit_char`.
fn is_digit(c: char) -> (r: bool)
    ensures
        r == is_digit_char(c),
{
    let u = c as u32;
    48 <= u && u <= 57
}

/// Identifier-start test, matching `is_ident_start_char`.
fn is_ident_start(c: char) -> (r: bool)
    ensures
        r == is_ident_start_char(c),
{
    let u = c as u32;
    (65 <= u && u <= 90) || (97 <= u && u <= 122) || c == '_'
}

/// Identifier-continuation test, matching `is_ident_char`.
fn is_ident(c: char) -> (r: bool)
    ensures
        r == is_ident_char(c),
{
    is_ident_start(c) || is_digit(c)
}

/// Numeric-run test, matching `is_num_char`.
fn is_num(c: char) -> (r: bool)
    ensures
        r == is_num_char(c),
{
    is_digit(c) || c == '.'
}

/// Operator lookup, matching `is_operator_char` and `operator_kind`.
fn operator_lookup(c: char) -> (r: Option<TokenType>)
    ensures
        r == if is_operator_char(c) {
            Some(operator_kind(c))
        } else {
            Option::<TokenType>::None
        },
{
    if c == '+' {
        Some(TokenType::PLUS)
    } else if c == '-' {
        Some(TokenType::MINUS)
    } else if c == '*' {
        Some(TokenType::ASTERISK)
    } else if c == '/' {
        Some(TokenType::SLASH)
    } else if c == '%' {
        Some(TokenType::PERCENT)
    } else if c == '^' {
        Some(TokenType::POWER)
    } else if c == ';' {
        Some(TokenType::SEMICOLON)
    } else if c == '(' {
        Some(TokenType::LPAREN)
    } else if c == ')' {
        Some(TokenType::RPAREN)
    } else {
        None
    }
}

} // verus!
