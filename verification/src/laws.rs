//! Laws of the scan: properties that hold of every successful
//! tokenization, proved once and for all against the model `lex`.

use vstd::prelude::*;

use crate::lexer::is_alnum;
use crate::lexer::is_digit;
use crate::lexer::is_letter;
use crate::lexer::is_pairable;
use crate::lexer::is_single;
use crate::lexer::is_space;
use crate::lexer::keyword_of;
use crate::lexer::kw_else;
use crate::lexer::kw_false;
use crate::lexer::kw_for;
use crate::lexer::kw_function;
use crate::lexer::kw_if;
use crate::lexer::kw_return;
use crate::lexer::kw_true;
use crate::lexer::kw_while;
use crate::lexer::lex;
use crate::lexer::lex_from;
use crate::lexer::scan_float;
use crate::lexer::scan_identifier;
use crate::lexer::scan_integer;
use crate::lexer::scan_string;
use crate::lexer::spec_tok;
use crate::lexer::AMPERSAND;
use crate::lexer::BACKSLASH;
use crate::lexer::BANG;
use crate::lexer::COLON;
use crate::lexer::COMMA;
use crate::lexer::DOT;
use crate::lexer::EQUALS;
use crate::lexer::GREATER;
use crate::lexer::LBRACE;
use crate::lexer::LESS;
use crate::lexer::LPAREN;
use crate::lexer::LSQUARE;
use crate::lexer::MINUS;
use crate::lexer::NEWLINE;
use crate::lexer::PIPE;
use crate::lexer::PLUS;
use crate::lexer::QUOTE;
use crate::lexer::RBRACE;
use crate::lexer::RPAREN;
use crate::lexer::RSQUARE;
use crate::lexer::SEMICOLON;
use crate::lexer::SLASH;
use crate::lexer::SPACE;
use crate::lexer::STAR;
use crate::lexer::TAB;
use crate::token::SpecToken;
use crate::token::TokenType;

verus! {

// ---------------------------------------------------------------------------
// What a single token claims about the bytes under it
// ---------------------------------------------------------------------------

/// A byte the dispatcher passes over without emitting a token: skipped
/// whitespace, or the quote delimiting a string literal.
pub open spec fn ws_or_quote(b: u8) -> bool {
    b == SPACE || b == TAB || b == NEWLINE || b == QUOTE
}

/// The token's span lies at or after `pos` and inside the buffer. A
/// span is inclusive on both ends; the empty string literal is the one
/// token with `end == start - 1`.
pub open spec fn token_in_range(t: SpecToken, pos: int, len: int) -> bool {
    pos <= t.start && t.start - 1 <= t.end && t.end < len
}

pub open spec fn all_digits(bytes: Seq<u8>, lo: int, hi: int) -> bool {
    forall|p: int| lo <= p < hi ==> is_digit(#[trigger] bytes[p])
}

pub open spec fn all_alnum(bytes: Seq<u8>, lo: int, hi: int) -> bool {
    forall|p: int| lo <= p < hi ==> is_alnum(#[trigger] bytes[p])
}

/// No unescaped closing quote anywhere in `[lo, hi)`: what the string
/// sub-scanner has consumed without terminating.
pub open spec fn no_break_quote(bytes: Seq<u8>, lo: int, hi: int) -> bool {
    forall|p: int| lo <= p < hi ==> !(#[trigger] bytes[p] == QUOTE && bytes[p - 1] != BACKSLASH)
}

/// What may follow a numeric literal: a space, a newline, or the end
/// of the buffer.
pub open spec fn num_terminator(bytes: Seq<u8>, p: int) -> bool {
    p == bytes.len() || bytes[p] == SPACE || bytes[p] == NEWLINE
}

/// What may follow an identifier or keyword: any byte that cannot
/// continue it, or the end of the buffer.
pub open spec fn ident_terminator(bytes: Seq<u8>, p: int) -> bool {
    p == bytes.len() || !is_alnum(bytes[p])
}

/// A two-byte operator `b=` at the token's span.
pub open spec fn two_byte_op_at(bytes: Seq<u8>, t: SpecToken, b: u8) -> bool {
    t.end == t.start + 1 && bytes[t.start] == b && bytes[t.end] == EQUALS
}

/// A one-byte operator or delimiter `b` at the token's span.
pub open spec fn one_byte_op_at(bytes: Seq<u8>, t: SpecToken, b: u8) -> bool {
    t.end == t.start && bytes[t.start] == b
}

/// A pairable operator byte that stands alone: no `=` follows it.
pub open spec fn lone_op_at(bytes: Seq<u8>, t: SpecToken, b: u8) -> bool {
    one_byte_op_at(bytes, t, b) && !(t.start + 1 < bytes.len() && bytes[t.start + 1] == EQUALS)
}

/// A keyword token: its span spells `kw` exactly, and the spelling is
/// maximal (no letter or digit follows).
pub open spec fn keyword_at(bytes: Seq<u8>, t: SpecToken, kw: Seq<u8>) -> bool {
    t.start <= t.end && bytes.subrange(t.start, t.end + 1) == kw && ident_terminator(
        bytes,
        t.end + 1,
    )
}

/// The token's kind is the right one for the bytes its span holds.
pub open spec fn token_matches(bytes: Seq<u8>, t: SpecToken) -> bool {
    match t.token_type {
        TokenType::Eof => false,
        TokenType::NotEqual => false,
        TokenType::Identifier => {
            &&& t.start <= t.end
            &&& is_letter(bytes[t.start])
            &&& all_alnum(bytes, t.start, t.end + 1)
            &&& keyword_of(bytes.subrange(t.start, t.end + 1)) is None
            &&& ident_terminator(bytes, t.end + 1)
        },
        TokenType::Integer => {
            &&& t.start <= t.end
            &&& all_digits(bytes, t.start, t.end + 1)
            &&& num_terminator(bytes, t.end + 1)
        },
        TokenType::Float => {
            &&& t.start < t.end
            &&& is_digit(bytes[t.start])
            &&& (exists|d: int|
                t.start < d <= t.end && #[trigger] bytes[d] == DOT && (forall|p: int|
                    t.start <= p <= t.end && p != d ==> is_digit(#[trigger] bytes[p])))
            &&& num_terminator(bytes, t.end + 1)
        },
        TokenType::StringLiteral => {
            &&& 1 <= t.start
            &&& t.start - 1 <= t.end
            &&& bytes[t.start - 1] == QUOTE
            &&& t.end + 1 < bytes.len()
            &&& bytes[t.end + 1] == QUOTE
            &&& bytes[t.end] != BACKSLASH
            &&& no_break_quote(bytes, t.start, t.end + 1)
        },
        TokenType::Assign => lone_op_at(bytes, t, EQUALS),
        TokenType::PlusAssign => two_byte_op_at(bytes, t, PLUS),
        TokenType::MinusAssign => two_byte_op_at(bytes, t, MINUS),
        TokenType::Equal => two_byte_op_at(bytes, t, EQUALS),
        TokenType::Less => lone_op_at(bytes, t, LESS),
        TokenType::LessEqual => two_byte_op_at(bytes, t, LESS),
        TokenType::Greater => lone_op_at(bytes, t, GREATER),
        TokenType::GreaterEqual => two_byte_op_at(bytes, t, GREATER),
        TokenType::Plus => lone_op_at(bytes, t, PLUS),
        TokenType::Minus => lone_op_at(bytes, t, MINUS),
        TokenType::Asterisk => one_byte_op_at(bytes, t, STAR),
        TokenType::Slash => one_byte_op_at(bytes, t, SLASH),
        TokenType::And => one_byte_op_at(bytes, t, AMPERSAND),
        TokenType::Or => one_byte_op_at(bytes, t, PIPE),
        TokenType::Bang => one_byte_op_at(bytes, t, BANG),
        TokenType::Comma => one_byte_op_at(bytes, t, COMMA),
        TokenType::Semicolon => one_byte_op_at(bytes, t, SEMICOLON),
        TokenType::Colon => one_byte_op_at(bytes, t, COLON),
        TokenType::LeftParen => one_byte_op_at(bytes, t, LPAREN),
        TokenType::RightParen => one_byte_op_at(bytes, t, RPAREN),
        TokenType::LeftBrace => one_byte_op_at(bytes, t, LBRACE),
        TokenType::RightBrace => one_byte_op_at(bytes, t, RBRACE),
        TokenType::LeftSquare => one_byte_op_at(bytes, t, LSQUARE),
        TokenType::RightSquare => one_byte_op_at(bytes, t, RSQUARE),
        TokenType::True => keyword_at(bytes, t, kw_true()),
        TokenType::False => keyword_at(bytes, t, kw_false()),
        TokenType::Function => keyword_at(bytes, t, kw_function()),
        TokenType::If => keyword_at(bytes, t, kw_if()),
        TokenType::Else => keyword_at(bytes, t, kw_else()),
        TokenType::For => keyword_at(bytes, t, kw_for()),
        TokenType::While => keyword_at(bytes, t, kw_while()),
        TokenType::Return => keyword_at(bytes, t, kw_return()),
    }
}

// ---------------------------------------------------------------------------
// What a whole token sequence claims
// ---------------------------------------------------------------------------

/// Spans come in strictly increasing order and never overlap.
pub open spec fn tokens_ordered(ts: Seq<SpecToken>) -> bool {
    forall|i: int, j: int| 0 <= i < j < ts.len() ==> #[trigger] ts[i].end < #[trigger] ts[j].start
}

/// Position `p` lies inside some token's span.
pub open spec fn covered(ts: Seq<SpecToken>, p: int) -> bool {
    exists|i: int| 0 <= i < ts.len() && #[trigger] ts[i].start <= p && p <= ts[i].end
}

/// Everything a scan that starts at `pos` on line `line` guarantees of
/// the tokens it yields: ordering, bounds, kind-correctness, line
/// numbers at or after `line`, and coverage of every byte from `pos`
/// on that is not skipped whitespace or a string delimiter.
pub open spec fn tokens_from(bytes: Seq<u8>, ts: Seq<SpecToken>, pos: int, line: int) -> bool {
    &&& tokens_ordered(ts)
    &&& (forall|i: int|
        0 <= i < ts.len() ==> token_in_range(#[trigger] ts[i], pos, bytes.len() as int) && token_matches(
            bytes,
            ts[i],
        ) && line <= ts[i].line)
    &&& (forall|p: int| pos <= p < bytes.len() ==> covered(ts, p) || ws_or_quote(#[trigger] bytes[p]))
}

// ---------------------------------------------------------------------------
// Combination lemmas
// ---------------------------------------------------------------------------

/// Skipped bytes in front of a scan weaken nothing: the guarantees
/// extend left over whitespace.
proof fn lemma_tokens_from_weaken(
    bytes: Seq<u8>,
    ts: Seq<SpecToken>,
    pos: int,
    pos2: int,
    line: int,
    line2: int,
)
    requires
        tokens_from(bytes, ts, pos2, line2),
        pos <= pos2,
        line <= line2,
        forall|p: int| pos <= p < pos2 && p < bytes.len() ==> ws_or_quote(#[trigger] bytes[p]),
    ensures
        tokens_from(bytes, ts, pos, line),
{
    assert forall|p: int| pos <= p < bytes.len() implies covered(ts, p) || ws_or_quote(
        bytes[p],
    ) by {
        if pos2 <= p {
            assert(covered(ts, p) || ws_or_quote(bytes[p]));
        }
    }
}

/// One token, then the rest of the scan: gluing keeps every guarantee,
/// provided the token sits before the resume position and the gap
/// bytes between them are skipped ones.
proof fn lemma_tokens_from_cons(
    bytes: Seq<u8>,
    t: SpecToken,
    ts: Seq<SpecToken>,
    pos: int,
    pos2: int,
    line: int,
    line2: int,
)
    requires
        token_in_range(t, pos, bytes.len() as int),
        token_matches(bytes, t),
        line <= t.line,
        line <= line2,
        tokens_from(bytes, ts, pos2, line2),
        t.end < pos2,
        forall|p: int|
            pos <= p < pos2 && p < bytes.len() ==> (t.start <= p && p <= t.end) || ws_or_quote(
                #[trigger] bytes[p],
            ),
    ensures
        tokens_from(bytes, seq![t] + ts, pos, line),
{
    let c = seq![t] + ts;
    assert(c[0] == t);
    assert(forall|i: int| 0 <= i < ts.len() ==> c[i + 1] == #[trigger] ts[i]);
    assert forall|i: int, j: int| 0 <= i < j < c.len() implies #[trigger] c[i].end
        < #[trigger] c[j].start by {
        if i == 0 {
            assert(c[j] == ts[j - 1]);
            assert(token_in_range(ts[j - 1], pos2, bytes.len() as int));
        } else {
            assert(c[i] == ts[i - 1]);
            assert(c[j] == ts[j - 1]);
        }
    }
    assert forall|i: int| 0 <= i < c.len() implies token_in_range(
        #[trigger] c[i],
        pos,
        bytes.len() as int,
    ) && token_matches(bytes, c[i]) && line <= c[i].line by {
        if i > 0 {
            assert(c[i] == ts[i - 1]);
            assert(token_in_range(ts[i - 1], pos2, bytes.len() as int));
        }
    }
    assert forall|p: int| pos <= p < bytes.len() implies covered(c, p) || ws_or_quote(
        bytes[p],
    ) by {
        if p < pos2 {
            if t.start <= p && p <= t.end {
                assert(c[0].start <= p && p <= c[0].end);
                assert(covered(c, p));
            }
        } else {
            if covered(ts, p) {
                let i = choose|i: int| 0 <= i < ts.len() && #[trigger] ts[i].start <= p && p <= ts[i].end;
                assert(c[i + 1] == ts[i]);
                assert(covered(c, p));
            }
        }
    }
}

/// A single flushed token at the very end of the buffer.
proof fn lemma_tokens_from_single(bytes: Seq<u8>, t: SpecToken, pos: int, line: int)
    requires
        token_in_range(t, pos, bytes.len() as int),
        token_matches(bytes, t),
        line <= t.line,
        forall|p: int|
            pos <= p < bytes.len() ==> (t.start <= p && p <= t.end) || ws_or_quote(
                #[trigger] bytes[p],
            ),
    ensures
        tokens_from(bytes, seq![t], pos, line),
{
    let c = seq![t];
    assert(c[0] == t);
    assert forall|p: int| pos <= p < bytes.len() implies covered(c, p) || ws_or_quote(
        bytes[p],
    ) by {
        if t.start <= p && p <= t.end {
            assert(c[0].start <= p && p <= c[0].end);
            assert(covered(c, p));
        }
    }
}

// ---------------------------------------------------------------------------
// The induction over the model
// ---------------------------------------------------------------------------

proof fn lemma_lex_from_props(bytes: Seq<u8>, pos: int, line: int)
    requires
        0 <= pos <= bytes.len(),
        1 <= line,
    ensures
        (lex_from(bytes, pos, line) matches Ok(ts) ==> tokens_from(bytes, ts, pos, line)),
    decreases bytes.len() - pos, 0int,
{
    if pos >= bytes.len() {
    } else {
        let b = bytes[pos];
        if b == NEWLINE {
            lemma_lex_from_props(bytes, pos + 1, line + 1);
            let r = lex_from(bytes, pos + 1, line + 1);
            if r is Ok {
                lemma_tokens_from_weaken(bytes, r->Ok_0, pos, pos + 1, line, line + 1);
            }
        } else if is_space(b) {
            lemma_lex_from_props(bytes, pos + 1, line);
            let r = lex_from(bytes, pos + 1, line);
            if r is Ok {
                lemma_tokens_from_weaken(bytes, r->Ok_0, pos, pos + 1, line, line);
            }
        } else if is_pairable(b) {
            if pos + 1 < bytes.len() && bytes[pos + 1] == EQUALS {
                let t = spec_tok(crate::lexer::pair_kind(b), pos, pos + 1, line);
                lemma_lex_from_props(bytes, pos + 2, line);
                let r = lex_from(bytes, pos + 2, line);
                if r is Ok {
                    lemma_tokens_from_cons(bytes, t, r->Ok_0, pos, pos + 2, line, line);
                }
            } else {
                let t = spec_tok(crate::lexer::single_kind(b), pos, pos, line);
                lemma_lex_from_props(bytes, pos + 1, line);
                let r = lex_from(bytes, pos + 1, line);
                if r is Ok {
                    lemma_tokens_from_cons(bytes, t, r->Ok_0, pos, pos + 1, line, line);
                }
            }
        } else if is_single(b) {
            let t = spec_tok(crate::lexer::single_kind(b), pos, pos, line);
            lemma_lex_from_props(bytes, pos + 1, line);
            let r = lex_from(bytes, pos + 1, line);
            if r is Ok {
                lemma_tokens_from_cons(bytes, t, r->Ok_0, pos, pos + 1, line, line);
            }
        } else if b == QUOTE {
            lemma_scan_string_props(bytes, pos + 1, pos + 1, line);
        } else if is_digit(b) {
            lemma_scan_integer_props(bytes, pos, pos + 1, line);
        } else if is_letter(b) {
            lemma_scan_identifier_props(bytes, pos, pos + 1, line);
        }
    }
}

proof fn lemma_scan_string_props(bytes: Seq<u8>, start: int, pos: int, line: int)
    requires
        1 <= start <= pos <= bytes.len(),
        bytes[start - 1] == QUOTE,
        no_break_quote(bytes, start, pos),
        1 <= line,
    ensures
        (scan_string(bytes, start, pos, line) matches Ok(ts) ==> tokens_from(
            bytes,
            ts,
            start - 1,
            line,
        )),
    decreases bytes.len() - pos, 1int,
{
    if pos >= bytes.len() {
    } else if bytes[pos] == QUOTE && bytes[pos - 1] != BACKSLASH {
        let t = spec_tok(TokenType::StringLiteral, start, pos - 1, line);
        lemma_lex_from_props(bytes, pos + 1, line);
        let r = lex_from(bytes, pos + 1, line);
        if r is Ok {
            lemma_tokens_from_cons(bytes, t, r->Ok_0, start - 1, pos + 1, line, line);
        }
    } else {
        lemma_scan_string_props(bytes, start, pos + 1, line);
    }
}

proof fn lemma_scan_integer_props(bytes: Seq<u8>, start: int, pos: int, line: int)
    requires
        0 <= start < pos <= bytes.len(),
        all_digits(bytes, start, pos),
        1 <= line,
    ensures
        (scan_integer(bytes, start, pos, line) matches Ok(ts) ==> tokens_from(
            bytes,
            ts,
            start,
            line,
        )),
    decreases bytes.len() - pos, 1int,
{
    if pos >= bytes.len() {
        let t = spec_tok(TokenType::Integer, start, pos - 1, line);
        lemma_tokens_from_single(bytes, t, start, line);
    } else {
        let b = bytes[pos];
        if b == DOT {
            lemma_scan_float_props(bytes, start, pos + 1, line, pos);
        } else if is_digit(b) {
            lemma_scan_integer_props(bytes, start, pos + 1, line);
        } else if b == NEWLINE {
            let t = spec_tok(TokenType::Integer, start, pos - 1, line);
            lemma_lex_from_props(bytes, pos, line);
            let r = lex_from(bytes, pos, line);
            if r is Ok {
                lemma_tokens_from_cons(bytes, t, r->Ok_0, start, pos, line, line);
            }
        } else if b == SPACE {
            let t = spec_tok(TokenType::Integer, start, pos - 1, line);
            lemma_lex_from_props(bytes, pos + 1, line);
            let r = lex_from(bytes, pos + 1, line);
            if r is Ok {
                lemma_tokens_from_cons(bytes, t, r->Ok_0, start, pos + 1, line, line);
            }
        }
    }
}

proof fn lemma_scan_float_props(bytes: Seq<u8>, start: int, pos: int, line: int, dot: int)
    requires
        0 <= start < dot < pos <= bytes.len(),
        bytes[dot] == DOT,
        is_digit(bytes[start]),
        forall|p: int| start <= p < pos && p != dot ==> is_digit(#[trigger] bytes[p]),
        1 <= line,
    ensures
        (scan_float(bytes, start, pos, line) matches Ok(ts) ==> tokens_from(
            bytes,
            ts,
            start,
            line,
        )),
    decreases bytes.len() - pos, 1int,
{
    if pos >= bytes.len() {
        let t = spec_tok(TokenType::Float, start, pos - 1, line);
        assert(token_matches(bytes, t)) by {
            assert(t.start < dot <= t.end && bytes[dot] == DOT && (forall|p: int|
                t.start <= p <= t.end && p != dot ==> is_digit(#[trigger] bytes[p])));
        }
        lemma_tokens_from_single(bytes, t, start, line);
    } else {
        let b = bytes[pos];
        if b == DOT {
        } else if is_digit(b) {
            lemma_scan_float_props(bytes, start, pos + 1, line, dot);
        } else if b == NEWLINE {
            let t = spec_tok(TokenType::Float, start, pos - 1, line);
            assert(token_matches(bytes, t)) by {
                assert(t.start < dot <= t.end && bytes[dot] == DOT && (forall|p: int|
                    t.start <= p <= t.end && p != dot ==> is_digit(#[trigger] bytes[p])));
            }
            lemma_lex_from_props(bytes, pos, line);
            let r = lex_from(bytes, pos, line);
            if r is Ok {
                lemma_tokens_from_cons(bytes, t, r->Ok_0, start, pos, line, line);
            }
        } else if b == SPACE {
            let t = spec_tok(TokenType::Float, start, pos - 1, line);
            assert(token_matches(bytes, t)) by {
                assert(t.start < dot <= t.end && bytes[dot] == DOT && (forall|p: int|
                    t.start <= p <= t.end && p != dot ==> is_digit(#[trigger] bytes[p])));
            }
            lemma_lex_from_props(bytes, pos + 1, line);
            let r = lex_from(bytes, pos + 1, line);
            if r is Ok {
                lemma_tokens_from_cons(bytes, t, r->Ok_0, start, pos + 1, line, line);
            }
        }
    }
}

proof fn lemma_scan_identifier_props(bytes: Seq<u8>, start: int, pos: int, line: int)
    requires
        0 <= start < pos <= bytes.len(),
        is_letter(bytes[start]),
        all_alnum(bytes, start, pos),
        1 <= line,
    ensures
        (scan_identifier(bytes, start, pos, line) matches Ok(ts) ==> tokens_from(
            bytes,
            ts,
            start,
            line,
        )),
    decreases bytes.len() - pos, 1int,
{
    if pos >= bytes.len() {
        let t = spec_tok(crate::lexer::ident_kind(bytes, start, pos), start, pos - 1, line);
        lemma_ident_token_matches(bytes, start, pos, line);
        lemma_tokens_from_single(bytes, t, start, line);
    } else if is_alnum(bytes[pos]) {
        lemma_scan_identifier_props(bytes, start, pos + 1, line);
    } else {
        let t = spec_tok(crate::lexer::ident_kind(bytes, start, pos), start, pos - 1, line);
        lemma_ident_token_matches(bytes, start, pos, line);
        lemma_lex_from_props(bytes, pos, line);
        let r = lex_from(bytes, pos, line);
        if r is Ok {
            lemma_tokens_from_cons(bytes, t, r->Ok_0, start, pos, line, line);
        }
    }
}

/// The token the identifier sub-scanner emits for the run `[start, pos)`
/// carries the right kind for its spelling.
proof fn lemma_ident_token_matches(bytes: Seq<u8>, start: int, pos: int, line: int)
    requires
        0 <= start < pos <= bytes.len(),
        is_letter(bytes[start]),
        all_alnum(bytes, start, pos),
        ident_terminator(bytes, pos),
    ensures
        token_matches(
            bytes,
            spec_tok(crate::lexer::ident_kind(bytes, start, pos), start, pos - 1, line),
        ),
{
    let sub = bytes.subrange(start, pos);
    let t = spec_tok(crate::lexer::ident_kind(bytes, start, pos), start, pos - 1, line);
    match keyword_of(sub) {
        Some(k) => {
            assert(keyword_at(bytes, t, sub));
        },
        None => {},
    }
}

// ---------------------------------------------------------------------------
// The laws, as public statements about `lex`
// ---------------------------------------------------------------------------

/// Law: the tokens of a successful scan lie inside the buffer in
/// strictly increasing span order, never overlap, and carry line
/// numbers starting at 1.
pub proof fn lemma_lex_token_invariants(bytes: Seq<u8>)
    ensures
        (lex(bytes) matches Ok(ts) ==> tokens_ordered(ts) && (forall|i: int|
            0 <= i < ts.len() ==> token_in_range(#[trigger] ts[i], 0, bytes.len() as int) && 1
                <= ts[i].line)),
{
    lemma_lex_from_props(bytes, 0, 1);
}

/// Law: every token of a successful scan has the kind the bytes under
/// its span dictate — the right operator or delimiter for each byte or
/// byte pair, digits under an `Integer`, a single dot among digits
/// under a `Float`, quote-delimited content under a `StringLiteral`,
/// and a letter-first alphanumeric run under an `Identifier` or its
/// reserved keyword kind.
pub proof fn lemma_lex_kinds_correct(bytes: Seq<u8>)
    ensures
        (lex(bytes) matches Ok(ts) ==> (forall|i: int|
            0 <= i < ts.len() ==> token_matches(bytes, #[trigger] ts[i]))),
{
    lemma_lex_from_props(bytes, 0, 1);
}

/// Law: a successful scan loses no byte — every position of the buffer
/// lies inside some token's span or holds a skipped byte (whitespace,
/// or the quote delimiting a string literal); with the ordering law no
/// byte is claimed twice either, so the spans plus the skipped bytes
/// reconstruct the buffer exactly.
pub proof fn lemma_lex_round_trip(bytes: Seq<u8>)
    ensures
        (lex(bytes) matches Ok(ts) ==> (forall|p: int|
            0 <= p < bytes.len() ==> covered(ts, p) || ws_or_quote(#[trigger] bytes[p]))),
{
    lemma_lex_from_props(bytes, 0, 1);
}

/// Law: a keyword spelling is never emitted as a plain identifier.
pub proof fn lemma_no_identifier_spells_keyword(bytes: Seq<u8>)
    ensures
        (lex(bytes) matches Ok(ts) ==> (forall|i: int|
            0 <= i < ts.len() && (#[trigger] ts[i]).token_type == TokenType::Identifier
                ==> keyword_of(bytes.subrange(ts[i].start, ts[i].end + 1)) is None)),
{
    lemma_lex_from_props(bytes, 0, 1);
}

/// Law: a buffer of operator and delimiter bytes separated by
/// whitespace always scans successfully; by the kind-correctness law
/// its tokens partition the input at the whitespace boundaries with
/// the correct kind per byte or byte pair.
pub proof fn lemma_operators_whitespace_scan_ok(bytes: Seq<u8>)
    requires
        forall|p: int|
            0 <= p < bytes.len() ==> is_space(#[trigger] bytes[p]) || bytes[p] == NEWLINE
                || is_pairable(bytes[p]) || is_single(bytes[p]),
    ensures
        lex(bytes) is Ok,
{
    lemma_lex_from_ops_total(bytes, 0, 1);
}

proof fn lemma_lex_from_ops_total(bytes: Seq<u8>, pos: int, line: int)
    requires
        0 <= pos <= bytes.len(),
        forall|p: int|
            0 <= p < bytes.len() ==> is_space(#[trigger] bytes[p]) || bytes[p] == NEWLINE
                || is_pairable(bytes[p]) || is_single(bytes[p]),
    ensures
        lex_from(bytes, pos, line) is Ok,
    decreases bytes.len() - pos,
{
    if pos < bytes.len() {
        let b = bytes[pos];
        if b == NEWLINE {
            lemma_lex_from_ops_total(bytes, pos + 1, line + 1);
        } else if is_space(b) {
            lemma_lex_from_ops_total(bytes, pos + 1, line);
        } else if is_pairable(b) {
            if pos + 1 < bytes.len() && bytes[pos + 1] == EQUALS {
                lemma_lex_from_ops_total(bytes, pos + 2, line);
            } else {
                lemma_lex_from_ops_total(bytes, pos + 1, line);
            }
        } else {
            lemma_lex_from_ops_total(bytes, pos + 1, line);
        }
    }
}

} // verus!
