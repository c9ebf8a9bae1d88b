//! Laws of the scanner, proved once and for all inputs.
//!
//! Each proof function here states a property of the token stream produced
//! by `lex_all` (and so, through the contract of `Lexer::parse`, of the
//! executable lexer) over every admissible source buffer.

use vstd::prelude::*;
use crate::model::{
    digits_val, float_shape_at, int_shape, is_digit_char, is_operator_char, is_space_char,
    lemma_float_dot, lemma_run_end_unique, lemma_scan_at_bounds, lemma_skip_ws, lex_all, num_pred,
    operator_kind, scan_at, skip_ws, spec_tok,
};
use crate::token::{SpecLit, TokenType};

verus! {

/// Skipping whitespace over an all-whitespace suffix reaches the end of
/// the buffer.
pub proof fn lemma_skip_ws_all_space(src: Seq<char>, pos: nat, line: nat)
    requires
        pos <= src.len(),
        forall|i: int| pos <= i < src.len() ==> is_space_char(src[i]),
    ensures
        skip_ws(src, pos, line).0 == src.len(),
    decreases src.len() - pos,
{
    if pos >= src.len() {
    } else if src[pos as int] == '\r' {
        if pos + 1 < src.len() && src[pos as int + 1] == '\n' {
            lemma_skip_ws_all_space(src, pos + 2, line + 1);
        } else {
            lemma_skip_ws_all_space(src, pos + 1, line + 1);
        }
    } else if src[pos as int] == '\n' {
        lemma_skip_ws_all_space(src, pos + 1, line + 1);
    } else {
        lemma_skip_ws_all_space(src, pos + 1, line);
    }
}

/// A source consisting solely of whitespace scans to exactly one `EOF`
/// token, carrying the line count of the skipped terminators.
pub proof fn lemma_whitespace_only_is_eof(src: Seq<char>)
    requires
        forall|i: int| 0 <= i < src.len() ==> is_space_char(src[i]),
    ensures
        lex_all(src, 0, 0) =~= seq![
            spec_tok(TokenType::EOF, SpecLit::Empty, skip_ws(src, 0, 0).1, src.len()),
        ],
{
    lemma_skip_ws_all_space(src, 0, 0);
}

/// A single operator character scans to exactly the matching fixed-kind
/// token, followed by `EOF`.
pub proof fn lemma_single_operator(c: char)
    requires
        is_operator_char(c),
    ensures
        lex_all(seq![c], 0, 0) =~= seq![
            spec_tok(operator_kind(c), SpecLit::Empty, 0, 0),
            spec_tok(TokenType::EOF, SpecLit::Empty, 0, 1),
        ],
{
    let src = seq![c];
    assert(!is_space_char(c));
    assert(skip_ws(src, 0, 0) == (0nat, 0nat));
    assert(skip_ws(src, 1, 0) == (1nat, 0nat));
    assert(lex_all(src, 1, 0) =~= seq![spec_tok(TokenType::EOF, SpecLit::Empty, 0, 1)]);
}

/// A maximal digit run whose value fits in `i64` scans to exactly one
/// `INT` token carrying the numeric value of the run, followed by `EOF`.
pub proof fn lemma_digit_run_is_int(src: Seq<char>)
    requires
        src.len() > 0,
        forall|i: int| 0 <= i < src.len() ==> is_digit_char(src[i]),
        digits_val(src) <= i64::MAX,
    ensures
        lex_all(src, 0, 0) =~= seq![
            spec_tok(TokenType::INT, SpecLit::Int(digits_val(src)), 0, 0),
            spec_tok(TokenType::EOF, SpecLit::Empty, 0, src.len()),
        ],
{
    assert(is_digit_char(src[0]));
    assert(!is_space_char(src[0]));
    assert(skip_ws(src, 0, 0) == (0nat, 0nat));
    assert(forall|i: int| 0 <= i < src.len() ==> num_pred()(src[i]));
    lemma_run_end_unique(src, 0, num_pred(), src.len());
    let run = src.subrange(0, src.len() as int);
    assert(run =~= src);
    assert(int_shape(run));
    assert(skip_ws(src, src.len(), 0) == (src.len(), 0nat));
    assert(lex_all(src, src.len(), 0) =~= seq![
        spec_tok(TokenType::EOF, SpecLit::Empty, 0, src.len()),
    ]);
}

/// A maximal run `d1.d2` — digits on both sides of exactly one dot, each
/// side's value fitting in `i64` — scans to exactly one `FLOAT` token
/// carrying the decimal parts as scanned, followed by `EOF`.
pub proof fn lemma_float_run_is_float(d1: Seq<char>, d2: Seq<char>)
    requires
        d1.len() > 0,
        d2.len() > 0,
        forall|i: int| 0 <= i < d1.len() ==> is_digit_char(d1[i]),
        forall|i: int| 0 <= i < d2.len() ==> is_digit_char(d2[i]),
        digits_val(d1) <= i64::MAX,
        digits_val(d2) <= i64::MAX,
    ensures
        lex_all(d1 + seq!['.'] + d2, 0, 0) =~= seq![
            spec_tok(
                TokenType::FLOAT,
                SpecLit::Float { int_part: digits_val(d1), frac: digits_val(d2), frac_len: d2.len() },
                0,
                0,
            ),
            spec_tok(TokenType::EOF, SpecLit::Empty, 0, d1.len() + 1 + d2.len()),
        ],
{
    let src = d1 + seq!['.'] + d2;
    let n = src.len();
    assert(n == d1.len() + 1 + d2.len());
    let k = d1.len() as int;
    assert(src[k] == '.');
    assert(forall|i: int| 0 <= i < k ==> src[i] == d1[i]);
    assert(forall|i: int| k < i < n ==> src[i] == d2[i - k - 1]);
    assert(is_digit_char(src[0]));
    assert(!is_space_char(src[0]));
    assert(skip_ws(src, 0, 0) == (0nat, 0nat));
    assert(forall|i: int| 0 <= i < n ==> num_pred()(src[i]));
    lemma_run_end_unique(src, 0, num_pred(), n);
    let run = src.subrange(0, n as int);
    assert(run =~= src);
    assert(!is_digit_char(run[k]));
    assert(!int_shape(run));
    assert(float_shape_at(run, k));
    lemma_float_dot(run, k);
    assert(run.subrange(0, k) =~= d1);
    assert(run.subrange(k + 1, n as int) =~= d2);
    assert(skip_ws(src, n, 0) == (n, 0nat));
    assert(lex_all(src, n, 0) =~= seq![spec_tok(TokenType::EOF, SpecLit::Empty, 0, n)]);
}

/// Per-token consumed-character counts of a scan: each token's cost is the
/// whitespace skipped before it plus the characters of its own lexeme, and
/// the trailing `EOF` token's cost is the whitespace skipped at the end.
pub open spec fn lex_costs(src: Seq<char>, pos: nat, line: nat) -> Seq<nat>
    decreases src.len() - pos,
{
    let p = skip_ws(src, pos, line).0;
    let l = skip_ws(src, pos, line).1;
    if p >= src.len() {
        seq![(src.len() - pos) as nat]
    } else {
        proof {
            if pos <= src.len() {
                lemma_skip_ws(src, pos, line);
            }
            lemma_scan_at_bounds(src, p, l);
        }
        seq![(scan_at(src, p, l).1 - pos) as nat] + lex_costs(src, scan_at(src, p, l).1, l)
    }
}

/// Sum of a sequence of counts.
pub open spec fn nat_seq_sum(s: Seq<nat>) -> nat
    decreases s.len(),
{
    if s.len() == 0 {
        0
    } else {
        s.first() + nat_seq_sum(s.drop_first())
    }
}

/// Round-trip position law: there is one consumed-character count per
/// emitted token, and their sum — every lexeme together with every skipped
/// whitespace character — equals the character count of the source not yet
/// consumed when scanning starts.
pub proof fn lemma_round_trip_positions(src: Seq<char>, pos: nat, line: nat)
    requires
        pos <= src.len(),
    ensures
        lex_costs(src, pos, line).len() == lex_all(src, pos, line).len(),
        nat_seq_sum(lex_costs(src, pos, line)) + pos == src.len(),
    decreases src.len() - pos,
{
    lemma_skip_ws(src, pos, line);
    let p = skip_ws(src, pos, line).0;
    let l = skip_ws(src, pos, line).1;
    if p >= src.len() {
        let costs = lex_costs(src, pos, line);
        assert(costs == seq![(src.len() - pos) as nat]);
        assert(costs.drop_first() =~= Seq::<nat>::empty());
        assert(nat_seq_sum(Seq::<nat>::empty()) == 0);
        assert(nat_seq_sum(costs) == src.len() - pos);
    } else {
        lemma_scan_at_bounds(src, p, l);
        let e = scan_at(src, p, l).1;
        lemma_round_trip_positions(src, e, l);
        let head: Seq<nat> = seq![(e - pos) as nat];
        let rest = lex_costs(src, e, l);
        assert(lex_costs(src, pos, line) == head + rest);
        assert((head + rest).first() == (e - pos) as nat);
        assert((head + rest).drop_first() =~= rest);
        assert(nat_seq_sum(head + rest) == (e - pos) + nat_seq_sum(rest));
    }
}

/// Tokens are emitted in source order: along the stream both the absolute
/// character offsets and the line numbers never decrease, and no token
/// starts before the position where scanning began.
pub proof fn lemma_tokens_in_source_order(src: Seq<char>, pos: nat, line: nat)
    requires
        pos <= src.len(),
    ensures
        forall|i: int| 0 <= i < lex_all(src, pos, line).len() ==> pos <= #[trigger] lex_all(
            src,
            pos,
            line,
        )[i].char_index && line <= lex_all(src, pos, line)[i].line,
        forall|i: int, j: int|
            0 <= i < j < lex_all(src, pos, line).len() ==> #[trigger] lex_all(
                src,
                pos,
                line,
            )[i].char_index <= #[trigger] lex_all(src, pos, line)[j].char_index && lex_all(
                src,
                pos,
                line,
            )[i].line <= lex_all(src, pos, line)[j].line,
    decreases src.len() - pos,
{
    lemma_skip_ws(src, pos, line);
    let p = skip_ws(src, pos, line).0;
    let l = skip_ws(src, pos, line).1;
    let toks = lex_all(src, pos, line);
    if p >= src.len() {
    } else {
        lemma_scan_at_bounds(src, p, l);
        let t = scan_at(src, p, l).0;
        let e = scan_at(src, p, l).1;
        let rest = lex_all(src, e, l);
        lemma_tokens_in_source_order(src, e, l);
        assert(toks == seq![t] + rest);
        assert(t.char_index == p && t.line == l);
        assert forall|i: int|
            0 <= i < toks.len() implies pos <= #[trigger] toks[i].char_index && line
            <= toks[i].line by {
            if i > 0 {
                assert(toks[i] == rest[i - 1]);
            }
        }
        assert forall|i: int, j: int|
            0 <= i < j < toks.len() implies #[trigger] toks[i].char_index
            <= #[trigger] toks[j].char_index && toks[i].line <= toks[j].line by {
            assert(toks[j] == rest[j - 1]);
            if i > 0 {
                assert(toks[i] == rest[i - 1]);
            }
        }
    }
}

/// Line counting for two-character line terminators: a `'\r'` immediately
/// followed by `'\n'` is consumed as one terminator and advances the line
/// counter by exactly one, never two.
pub proof fn lemma_crlf_counts_one_line(src: Seq<char>, pos: nat, line: nat)
    requires
        pos + 1 < src.len(),
        src[pos as int] == '\r',
        src[pos as int + 1] == '\n',
    ensures
        skip_ws(src, pos, line) == skip_ws(src, pos + 2, line + 1),
{
}

} // verus!
