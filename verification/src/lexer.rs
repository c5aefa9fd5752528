//! The scanner itself: a functional model of the whole scan
//! (`lex`), and the executable `File` scanner proved against it.

use vstd::prelude::*;
use vstd::slice::slice_subrange;

use crate::token::LexError;
use crate::token::Mode;
use crate::token::SpecLexError;
use crate::token::SpecToken;
use crate::token::Token;
use crate::token::TokenType;

verus! {

// ---------------------------------------------------------------------------
// Byte values, named: the verifier takes no byte-character literals
// ---------------------------------------------------------------------------

pub const TAB: u8 = 9;  // '\t'
pub const NEWLINE: u8 = 10;  // '\n'
pub const SPACE: u8 = 32;  // ' '
pub const BANG: u8 = 33;  // '!'
pub const QUOTE: u8 = 34;  // '"'
pub const AMPERSAND: u8 = 38;  // '&'
pub const LPAREN: u8 = 40;  // '('
pub const RPAREN: u8 = 41;  // ')'
pub const STAR: u8 = 42;  // '*'
pub const PLUS: u8 = 43;  // '+'
pub const COMMA: u8 = 44;  // ','
pub const MINUS: u8 = 45;  // '-'
pub const DOT: u8 = 46;  // '.'
pub const SLASH: u8 = 47;  // '/'
pub const DIGIT_0: u8 = 48;  // '0'
pub const DIGIT_9: u8 = 57;  // '9'
pub const COLON: u8 = 58;  // ':'
pub const SEMICOLON: u8 = 59;  // ';'
pub const LESS: u8 = 60;  // '<'
pub const EQUALS: u8 = 61;  // '='
pub const GREATER: u8 = 62;  // '>'
pub const UPPER_A: u8 = 65;  // 'A'
pub const UPPER_Z: u8 = 90;  // 'Z'
pub const LSQUARE: u8 = 91;  // '['
pub const BACKSLASH: u8 = 92;  // '\\'
pub const RSQUARE: u8 = 93;  // ']'
pub const LOWER_A: u8 = 97;  // 'a'
pub const LOWER_Z: u8 = 122;  // 'z'
pub const LBRACE: u8 = 123;  // '{'
pub const PIPE: u8 = 124;  // '|'
pub const RBRACE: u8 = 125;  // '}'

// ---------------------------------------------------------------------------
// Byte classification
// ---------------------------------------------------------------------------

/// Space or tab: skipped by the dispatcher, and one of the two bytes
/// that terminate a numeric literal.
pub open spec fn is_space(b: u8) -> bool {
    b == SPACE || b == TAB
}

pub open spec fn is_digit(b: u8) -> bool {
    DIGIT_0 <= b && b <= DIGIT_9
}

pub open spec fn is_letter(b: u8) -> bool {
    (LOWER_A <= b && b <= LOWER_Z) || (UPPER_A <= b && b <= UPPER_Z)
}

/// A byte that may continue an identifier (its first byte is a letter).
pub open spec fn is_alnum(b: u8) -> bool {
    is_letter(b) || is_digit(b)
}

/// An operator byte that pairs with a following `=` into a two-byte
/// operator (`==`, `+=`, `-=`, `<=`, `>=`).
pub open spec fn is_pairable(b: u8) -> bool {
    b == EQUALS || b == PLUS || b == MINUS || b == LESS || b == GREATER
}

/// An operator or delimiter byte that always scans as one byte.
pub open spec fn is_single(b: u8) -> bool {
    b == STAR || b == SLASH || b == COMMA || b == SEMICOLON || b == COLON || b == LPAREN || b
        == RPAREN || b == LBRACE || b == RBRACE || b == LSQUARE || b == RSQUARE || b == AMPERSAND
        || b == PIPE || b == BANG
}

/// The kind of the two-byte operator `b=`.
pub open spec fn pair_kind(b: u8) -> TokenType {
    if b == EQUALS {
        TokenType::Equal
    } else if b == PLUS {
        TokenType::PlusAssign
    } else if b == MINUS {
        TokenType::MinusAssign
    } else if b == LESS {
        TokenType::LessEqual
    } else {
        TokenType::GreaterEqual
    }
}

/// The kind of the one-byte operator or delimiter `b`.
pub open spec fn single_kind(b: u8) -> TokenType {
    if b == EQUALS {
        TokenType::Assign
    } else if b == PLUS {
        TokenType::Plus
    } else if b == MINUS {
        TokenType::Minus
    } else if b == LESS {
        TokenType::Less
    } else if b == GREATER {
        TokenType::Greater
    } else if b == STAR {
        TokenType::Asterisk
    } else if b == SLASH {
        TokenType::Slash
    } else if b == COMMA {
        TokenType::Comma
    } else if b == SEMICOLON {
        TokenType::Semicolon
    } else if b == COLON {
        TokenType::Colon
    } else if b == LPAREN {
        TokenType::LeftParen
    } else if b == RPAREN {
        TokenType::RightParen
    } else if b == LBRACE {
        TokenType::LeftBrace
    } else if b == RBRACE {
        TokenType::RightBrace
    } else if b == LSQUARE {
        TokenType::LeftSquare
    } else if b == RSQUARE {
        TokenType::RightSquare
    } else if b == AMPERSAND {
        TokenType::And
    } else if b == PIPE {
        TokenType::Or
    } else {
        TokenType::Bang
    }
}

// ---------------------------------------------------------------------------
// Keywords
// ---------------------------------------------------------------------------

pub open spec fn kw_function() -> Seq<u8> {
    seq![102u8, 117u8, 110u8, 99u8, 116u8, 105u8, 111u8, 110u8]  // "function"
}

pub open spec fn kw_if() -> Seq<u8> {
    seq![105u8, 102u8]  // "if"
}

pub open spec fn kw_else() -> Seq<u8> {
    seq![101u8, 108u8, 115u8, 101u8]  // "else"
}

pub open spec fn kw_for() -> Seq<u8> {
    seq![102u8, 111u8, 114u8]  // "for"
}

pub open spec fn kw_while() -> Seq<u8> {
    seq![119u8, 104u8, 105u8, 108u8, 101u8]  // "while"
}

pub open spec fn kw_return() -> Seq<u8> {
    seq![114u8, 101u8, 116u8, 117u8, 114u8, 110u8]  // "return"
}

pub open spec fn kw_true() -> Seq<u8> {
    seq![116u8, 114u8, 117u8, 101u8]  // "true"
}

pub open spec fn kw_false() -> Seq<u8> {
    seq![102u8, 97u8, 108u8, 115u8, 101u8]  // "false"
}

/// The fixed, case-sensitive keyword table: the kind reserved for the
/// spelling `s`, or `None` when `s` is an ordinary identifier spelling.
pub open spec fn keyword_of(s: Seq<u8>) -> Option<TokenType> {
    if s == kw_function() {
        Some(TokenType::Function)
    } else if s == kw_if() {
        Some(TokenType::If)
    } else if s == kw_else() {
        Some(TokenType::Else)
    } else if s == kw_for() {
        Some(TokenType::For)
    } else if s == kw_while() {
        Some(TokenType::While)
    } else if s == kw_return() {
        Some(TokenType::Return)
    } else if s == kw_true() {
        Some(TokenType::True)
    } else if s == kw_false() {
        Some(TokenType::False)
    } else {
        None
    }
}

// ---------------------------------------------------------------------------
// Functional model of the scan
// ---------------------------------------------------------------------------

/// A token constructor, for use inside contracts and the model.
pub open spec fn spec_tok(kind: TokenType, start: int, end: int, line: int) -> SpecToken {
    SpecToken { token_type: kind, start: start, end: end, line: line }
}

/// Prepend token `t` to the outcome `rest`; an error swallows `t`, so
/// an erroneous scan yields no tokens at all.
pub open spec fn with_token(t: SpecToken, rest: Result<Seq<SpecToken>, SpecLexError>) -> Result<
    Seq<SpecToken>,
    SpecLexError,
> {
    match rest {
        Ok(ts) => Ok(seq![t] + ts),
        Err(e) => Err(e),
    }
}

/// The dispatcher: what the scan of `bytes` produces from position
/// `pos` onward, in `Normal` mode, with 1-based line counter `line`.
pub open spec fn lex_from(bytes: Seq<u8>, pos: int, line: int) -> Result<
    Seq<SpecToken>,
    SpecLexError,
> decreases bytes.len() - pos, 0int,
{
    if pos < 0 || pos >= bytes.len() {
        Ok(Seq::empty())
    } else {
        let b = bytes[pos];
        if b == NEWLINE {
            lex_from(bytes, pos + 1, line + 1)
        } else if is_space(b) {
            lex_from(bytes, pos + 1, line)
        } else if is_pairable(b) {
            if pos + 1 < bytes.len() && bytes[pos + 1] == EQUALS {
                with_token(spec_tok(pair_kind(b), pos, pos + 1, line), lex_from(bytes, pos + 2, line))
            } else {
                with_token(spec_tok(single_kind(b), pos, pos, line), lex_from(bytes, pos + 1, line))
            }
        } else if is_single(b) {
            with_token(spec_tok(single_kind(b), pos, pos, line), lex_from(bytes, pos + 1, line))
        } else if b == QUOTE {
            scan_string(bytes, pos + 1, pos + 1, line)
        } else if is_digit(b) {
            scan_integer(bytes, pos, pos + 1, line)
        } else if is_letter(b) {
            scan_identifier(bytes, pos, pos + 1, line)
        } else {
            Err(SpecLexError::UnknownCharacter { byte: b, offset: pos, line: line })
        }
    }
}

/// The string sub-scanner: the opening quote stands at `start - 1`, the
/// content begins at `start`, and bytes up to `pos` are already
/// consumed. The literal closes at the first `"` whose predecessor is
/// not `\`; only that single preceding byte is inspected. Reaching the
/// end of the buffer in this mode is fatal.
pub open spec fn scan_string(bytes: Seq<u8>, start: int, pos: int, line: int) -> Result<
    Seq<SpecToken>,
    SpecLexError,
> decreases bytes.len() - pos, 1int,
{
    if pos >= bytes.len() {
        Err(SpecLexError::UnterminatedString { line: line })
    } else if bytes[pos] == QUOTE && bytes[pos - 1] != BACKSLASH {
        with_token(
            spec_tok(TokenType::StringLiteral, start, pos - 1, line),
            lex_from(bytes, pos + 1, line),
        )
    } else {
        scan_string(bytes, start, pos + 1, line)
    }
}

/// The integer sub-scanner: digits from `start` up to `pos` are already
/// consumed. A `.` switches to the float sub-scanner; a space or
/// newline (or the end of the buffer) terminates the literal, the span
/// ending at the last digit; anything else is fatal. The newline is
/// left for the dispatcher, which counts it.
pub open spec fn scan_integer(bytes: Seq<u8>, start: int, pos: int, line: int) -> Result<
    Seq<SpecToken>,
    SpecLexError,
> decreases bytes.len() - pos, 1int,
{
    if pos >= bytes.len() {
        Ok(seq![spec_tok(TokenType::Integer, start, pos - 1, line)])
    } else {
        let b = bytes[pos];
        if b == DOT {
            scan_float(bytes, start, pos + 1, line)
        } else if is_digit(b) {
            scan_integer(bytes, start, pos + 1, line)
        } else if b == NEWLINE {
            with_token(
                spec_tok(TokenType::Integer, start, pos - 1, line),
                lex_from(bytes, pos, line),
            )
        } else if b == SPACE {
            with_token(
                spec_tok(TokenType::Integer, start, pos - 1, line),
                lex_from(bytes, pos + 1, line),
            )
        } else {
            Err(SpecLexError::InvalidNumericLiteral { byte: b, offset: pos, line: line })
        }
    }
}

/// The float sub-scanner: entered from the integer sub-scanner on a
/// `.`, keeping the run's original `start`. A second `.` is fatal;
/// termination is as for integers.
pub open spec fn scan_float(bytes: Seq<u8>, start: int, pos: int, line: int) -> Result<
    Seq<SpecToken>,
    SpecLexError,
> decreases bytes.len() - pos, 1int,
{
    if pos >= bytes.len() {
        Ok(seq![spec_tok(TokenType::Float, start, pos - 1, line)])
    } else {
        let b = bytes[pos];
        if b == DOT {
            Err(SpecLexError::MalformedFloat { offset: pos, line: line })
        } else if is_digit(b) {
            scan_float(bytes, start, pos + 1, line)
        } else if b == NEWLINE {
            with_token(spec_tok(TokenType::Float, start, pos - 1, line), lex_from(bytes, pos, line))
        } else if b == SPACE {
            with_token(
                spec_tok(TokenType::Float, start, pos - 1, line),
                lex_from(bytes, pos + 1, line),
            )
        } else {
            Err(SpecLexError::InvalidNumericLiteral { byte: b, offset: pos, line: line })
        }
    }
}

/// The kind of the identifier-shaped run `[start, pos)`: the reserved
/// kind if the run spells a keyword, else `Identifier`.
pub open spec fn ident_kind(bytes: Seq<u8>, start: int, pos: int) -> TokenType {
    match keyword_of(bytes.subrange(start, pos)) {
        Some(k) => k,
        None => TokenType::Identifier,
    }
}

/// The identifier sub-scanner: letters/digits from `start` up to `pos`
/// are already consumed. The first byte that is neither terminates the
/// run and is left unconsumed for the dispatcher; the run is then
/// classified against the keyword table.
pub open spec fn scan_identifier(bytes: Seq<u8>, start: int, pos: int, line: int) -> Result<
    Seq<SpecToken>,
    SpecLexError,
> decreases bytes.len() - pos, 1int,
{
    if pos >= bytes.len() {
        Ok(seq![spec_tok(ident_kind(bytes, start, pos), start, pos - 1, line)])
    } else if is_alnum(bytes[pos]) {
        scan_identifier(bytes, start, pos + 1, line)
    } else {
        with_token(
            spec_tok(ident_kind(bytes, start, pos), start, pos - 1, line),
            lex_from(bytes, pos, line),
        )
    }
}

/// The whole scan: every token the buffer holds, in source order, or
/// the first fatal error. This is the specification that `File::tokenize`
/// is proved to implement.
pub open spec fn lex(bytes: Seq<u8>) -> Result<Seq<SpecToken>, SpecLexError> {
    lex_from(bytes, 0, 1)
}

// ---------------------------------------------------------------------------
// Executable keyword lookup
// ---------------------------------------------------------------------------

/// Classify an identifier-shaped byte run against the keyword table.
pub fn get_token(bytes: &[u8]) -> (r: Option<TokenType>)
    ensures
        r == keyword_of(bytes@),
{
    let n = bytes.len();
    if n == 2 && bytes[0] == 105 && bytes[1] == 102 {
        proof {
            assert(bytes@ =~= kw_if());
        }
        Some(TokenType::If)
    } else if n == 3 && bytes[0] == 102 && bytes[1] == 111 && bytes[2] == 114 {
        proof {
            assert(bytes@ =~= kw_for());
        }
        Some(TokenType::For)
    } else if n == 4 && bytes[0] == 101 && bytes[1] == 108 && bytes[2] == 115 && bytes[3] == 101 {
        proof {
            assert(bytes@ =~= kw_else());
        }
        Some(TokenType::Else)
    } else if n == 4 && bytes[0] == 116 && bytes[1] == 114 && bytes[2] == 117 && bytes[3] == 101 {
        proof {
            assert(bytes@ =~= kw_true());
        }
        Some(TokenType::True)
    } else if n == 5 && bytes[0] == 119 && bytes[1] == 104 && bytes[2] == 105 && bytes[3] == 108
        && bytes[4] == 101 {
        proof {
            assert(bytes@ =~= kw_while());
        }
        Some(TokenType::While)
    } else if n == 5 && bytes[0] == 102 && bytes[1] == 97 && bytes[2] == 108 && bytes[3] == 115
        && bytes[4] == 101 {
        proof {
            assert(bytes@ =~= kw_false());
        }
        Some(TokenType::False)
    } else if n == 6 && bytes[0] == 114 && bytes[1] == 101 && bytes[2] == 116 && bytes[3] == 117
        && bytes[4] == 114 && bytes[5] == 110 {
        proof {
            assert(bytes@ =~= kw_return());
        }
        Some(TokenType::Return)
    } else if n == 8 && bytes[0] == 102 && bytes[1] == 117 && bytes[2] == 110 && bytes[3] == 99
        && bytes[4] == 116 && bytes[5] == 105 && bytes[6] == 111 && bytes[7] == 110 {
        proof {
            assert(bytes@ =~= kw_function());
        }
        Some(TokenType::Function)
    } else {
        None
    }
}

// ---------------------------------------------------------------------------
// Executable byte classification
// ---------------------------------------------------------------------------

fn is_digit_byte(b: u8) -> (r: bool)
    ensures
        r == is_digit(b),
{
    DIGIT_0 <= b && b <= DIGIT_9
}

fn is_letter_byte(b: u8) -> (r: bool)
    ensures
        r == is_letter(b),
{
    (LOWER_A <= b && b <= LOWER_Z) || (UPPER_A <= b && b <= UPPER_Z)
}

fn is_alnum_byte(b: u8) -> (r: bool)
    ensures
        r == is_alnum(b),
{
    is_letter_byte(b) || is_digit_byte(b)
}

fn is_single_byte(b: u8) -> (r: bool)
    ensures
        r == is_single(b),
{
    b == STAR || b == SLASH || b == COMMA || b == SEMICOLON || b == COLON || b == LPAREN || b
        == RPAREN || b == LBRACE || b == RBRACE || b == LSQUARE || b == RSQUARE || b == AMPERSAND
        || b == PIPE || b == BANG
}

fn pair_token_kind(b: u8) -> (k: TokenType)
    requires
        is_pairable(b),
    ensures
        k == pair_kind(b),
{
    if b == EQUALS {
        TokenType::Equal
    } else if b == PLUS {
        TokenType::PlusAssign
    } else if b == MINUS {
        TokenType::MinusAssign
    } else if b == LESS {
        TokenType::LessEqual
    } else {
        TokenType::GreaterEqual
    }
}

fn single_token_kind(b: u8) -> (k: TokenType)
    requires
        is_pairable(b) || is_single(b),
    ensures
        k == single_kind(b),
{
    if b == EQUALS {
        TokenType::Assign
    } else if b == PLUS {
        TokenType::Plus
    } else if b == MINUS {
        TokenType::Minus
    } else if b == LESS {
        TokenType::Less
    } else if b == GREATER {
        TokenType::Greater
    } else if b == STAR {
        TokenType::Asterisk
    } else if b == SLASH {
        TokenType::Slash
    } else if b == COMMA {
        TokenType::Comma
    } else if b == SEMICOLON {
        TokenType::Semicolon
    } else if b == COLON {
        TokenType::Colon
    } else if b == LPAREN {
        TokenType::LeftParen
    } else if b == RPAREN {
        TokenType::RightParen
    } else if b == LBRACE {
        TokenType::LeftBrace
    } else if b == RBRACE {
        TokenType::RightBrace
    } else if b == LSQUARE {
        TokenType::LeftSquare
    } else if b == RSQUARE {
        TokenType::RightSquare
    } else if b == AMPERSAND {
        TokenType::And
    } else if b == PIPE {
        TokenType::Or
    } else {
        TokenType::Bang
    }
}

// ---------------------------------------------------------------------------
// Relating the growing token vector to the model
// ---------------------------------------------------------------------------

/// The mathematical view of the token vector built so far.
pub open spec fn toks_view(ts: Seq<Token>) -> Seq<SpecToken> {
    ts.map_values(|t: Token| t@)
}

/// Tokens already emitted, glued onto what the rest of the scan yields:
/// an error late in the buffer discards everything emitted before it.
pub open spec fn glue(done: Seq<SpecToken>, rest: Result<Seq<SpecToken>, SpecLexError>) -> Result<
    Seq<SpecToken>,
    SpecLexError,
> {
    match rest {
        Ok(more) => Ok(done + more),
        Err(e) => Err(e),
    }
}

proof fn lemma_glue_empty(rest: Result<Seq<SpecToken>, SpecLexError>)
    ensures
        glue(Seq::empty(), rest) == rest,
{
    match rest {
        Ok(more) => {
            assert(Seq::<SpecToken>::empty() + more =~= more);
        },
        Err(_) => {},
    }
}

/// Emitting token `t` and scanning on is the same as gluing `t` in
/// front of the rest of the scan.
proof fn lemma_glue_step(
    done: Seq<SpecToken>,
    t: SpecToken,
    rest: Result<Seq<SpecToken>, SpecLexError>,
)
    ensures
        glue(done, with_token(t, rest)) == glue(done.push(t), rest),
{
    match rest {
        Ok(more) => {
            assert(done + (seq![t] + more) =~= done.push(t) + more);
        },
        Err(_) => {},
    }
}

proof fn lemma_glue_last(done: Seq<SpecToken>, t: SpecToken)
    ensures
        glue(done, Ok(seq![t])) == Ok::<Seq<SpecToken>, SpecLexError>(done.push(t)),
{
    assert(done + seq![t] =~= done.push(t));
}

proof fn lemma_toks_view_push(ts: Seq<Token>, t: Token)
    ensures
        toks_view(ts.push(t)) == toks_view(ts).push(t@),
{
    assert(toks_view(ts.push(t)) =~= toks_view(ts).push(t@));
}

/// Rank of a scanner mode for the loop's termination measure: every
/// sub-scanner hands control back to `Normal` without consuming a byte
/// at most once before the cursor moves again.
pub open spec fn mode_rank(m: Mode) -> int {
    if m == Mode::Normal {
        0
    } else {
        1
    }
}

// ---------------------------------------------------------------------------
// The scanner object
// ---------------------------------------------------------------------------

/// A source buffer together with the scan state and its output. It is
/// built from a byte buffer, runs one `tokenize` pass, and is then read
/// or discarded.
#[derive(Debug)]
pub struct File {
    pub raw: Vec<u8>,
    pub tokens: Vec<Token>,
    pub cursor: usize,
    pub line: usize,
}

impl File {
    /// A fresh scanner over `raw_data`: cursor at the first byte, line
    /// counter at 1, no tokens yet.
    pub fn new(raw_data: Vec<u8>) -> (f: Self)
        ensures
            f.raw == raw_data,
            f.tokens@ == Seq::<Token>::empty(),
            f.cursor == 0,
            f.line == 1,
    {
        let f = Self { raw: raw_data, tokens: Vec::new(), cursor: 0, line: 1 };
        proof {
            assert(f.tokens@ =~= Seq::<Token>::empty());
        }
        f
    }

    /// Scan the whole buffer: on success `self.tokens` holds exactly
    /// the tokens of the model `lex`, in source order; on the first
    /// lexical anomaly the scan stops, no tokens are kept, and the
    /// matching error value is returned. The buffer itself is never
    /// changed.
    #[verifier::loop_isolation(false)]
    pub fn tokenize(&mut self) -> (r: Result<(), LexError>)
        requires
            old(self).cursor == 0,
            old(self).line == 1,
            old(self).tokens@.len() == 0,
            old(self).raw@.len() < usize::MAX,
        ensures
            final(self).raw@ == old(self).raw@,
            (match lex(old(self).raw@) {
                Ok(ts) => r matches Ok(()) && toks_view(final(self).tokens@) == ts
                    && final(self).cursor == old(self).raw@.len(),
                Err(e) => r matches Err(err) && err@ == e && final(self).tokens@.len() == 0,
            }),
    {
        let ghost bytes = self.raw@;
        let mut mode = Mode::Normal;
        let mut str_start: usize = 0;
        let mut int_start: usize = 0;
        let mut float_start: usize = 0;
        let mut id_start: usize = 0;

        proof {
            assert(toks_view(self.tokens@) =~= Seq::<SpecToken>::empty());
            lemma_glue_empty(lex_from(bytes, 0, 1));
        }

        while self.cursor < self.raw.len()
            invariant
                self.raw@ == bytes,
                bytes.len() < usize::MAX,
                self.cursor <= self.raw.len(),
                1 <= self.line,
                self.line <= 1 + self.cursor,
                (mode == Mode::Normal ==> glue(
                    toks_view(self.tokens@),
                    lex_from(bytes, self.cursor as int, self.line as int),
                ) == lex(bytes)),
                (mode == Mode::StringLiteral ==> 1 <= str_start && str_start <= self.cursor
                    && bytes[str_start as int - 1] == QUOTE && glue(
                    toks_view(self.tokens@),
                    scan_string(bytes, str_start as int, self.cursor as int, self.line as int),
                ) == lex(bytes)),
                (mode == Mode::Integer ==> int_start < self.cursor && glue(
                    toks_view(self.tokens@),
                    scan_integer(bytes, int_start as int, self.cursor as int, self.line as int),
                ) == lex(bytes)),
                (mode == Mode::Float ==> float_start < self.cursor && glue(
                    toks_view(self.tokens@),
                    scan_float(bytes, float_start as int, self.cursor as int, self.line as int),
                ) == lex(bytes)),
                (mode == Mode::Identifier ==> id_start < self.cursor && glue(
                    toks_view(self.tokens@),
                    scan_identifier(bytes, id_start as int, self.cursor as int, self.line as int),
                ) == lex(bytes)),
            decreases self.raw@.len() - self.cursor, mode_rank(mode),
        {
            let b = self.raw[self.cursor];
            match mode {
                // The dispatcher: classify one byte and emit, skip, or
                // switch into a sub-scanner.
                Mode::Normal => {
                    if b == NEWLINE {
                        // Only this state consumes a newline, so the
                        // count stays right whatever ended the line.
                        self.line = self.line + 1;
                        self.cursor = self.cursor + 1;
                    } else if b == SPACE || b == TAB {
                        self.cursor = self.cursor + 1;
                    } else if b == EQUALS || b == PLUS || b == MINUS || b == LESS || b == GREATER {
                        // Look ahead for the `=` of a two-byte form,
                        // but never past the end of the buffer.
                        if self.cursor + 1 < self.raw.len() && self.raw[self.cursor + 1] == EQUALS {
                            let tok = Token {
                                token_type: pair_token_kind(b),
                                start: self.cursor,
                                end: self.cursor + 1,
                                line: self.line,
                            };
                            proof {
                                let c = self.cursor as int;
                                let l = self.line as int;
                                lemma_glue_step(toks_view(self.tokens@), tok@, lex_from(bytes, c + 2, l));
                                lemma_toks_view_push(self.tokens@, tok);
                            }
                            self.tokens.push(tok);
                            self.cursor = self.cursor + 2;
                        } else {
                            let tok = Token {
                                token_type: single_token_kind(b),
                                start: self.cursor,
                                end: self.cursor,
                                line: self.line,
                            };
                            proof {
                                let c = self.cursor as int;
                                let l = self.line as int;
                                lemma_glue_step(toks_view(self.tokens@), tok@, lex_from(bytes, c + 1, l));
                                lemma_toks_view_push(self.tokens@, tok);
                            }
                            self.tokens.push(tok);
                            self.cursor = self.cursor + 1;
                        }
                    } else if is_single_byte(b) {
                        let tok = Token {
                            token_type: single_token_kind(b),
                            start: self.cursor,
                            end: self.cursor,
                            line: self.line,
                        };
                        proof {
                            let c = self.cursor as int;
                            let l = self.line as int;
                            lemma_glue_step(toks_view(self.tokens@), tok@, lex_from(bytes, c + 1, l));
                            lemma_toks_view_push(self.tokens@, tok);
                        }
                        self.tokens.push(tok);
                        self.cursor = self.cursor + 1;
                    } else if b == QUOTE {
                        // The content starts after the opening quote.
                        self.cursor = self.cursor + 1;
                        str_start = self.cursor;
                        mode = Mode::StringLiteral;
                    } else if is_digit_byte(b) {
                        int_start = self.cursor;
                        self.cursor = self.cursor + 1;
                        mode = Mode::Integer;
                    } else if is_letter_byte(b) {
                        id_start = self.cursor;
                        self.cursor = self.cursor + 1;
                        mode = Mode::Identifier;
                    } else {
                        let err = LexError::UnknownCharacter {
                            byte: b,
                            offset: self.cursor,
                            line: self.line,
                        };
                        self.tokens = Vec::new();
                        return Err(err);
                    }
                },
                // One byte of string content at a time, until an
                // unescaped closing quote.
                Mode::StringLiteral => {
                    if b == QUOTE && self.raw[self.cursor - 1] != BACKSLASH {
                        let tok = Token {
                            token_type: TokenType::StringLiteral,
                            start: str_start,
                            end: self.cursor - 1,
                            line: self.line,
                        };
                        proof {
                            let c = self.cursor as int;
                            let l = self.line as int;
                            lemma_glue_step(toks_view(self.tokens@), tok@, lex_from(bytes, c + 1, l));
                            lemma_toks_view_push(self.tokens@, tok);
                        }
                        self.tokens.push(tok);
                        self.cursor = self.cursor + 1;
                        mode = Mode::Normal;
                    } else {
                        self.cursor = self.cursor + 1;
                    }
                },
                // Digits, until a dot, a terminator, or an offender.
                Mode::Integer => {
                    if b == DOT {
                        float_start = int_start;
                        self.cursor = self.cursor + 1;
                        mode = Mode::Float;
                    } else if is_digit_byte(b) {
                        self.cursor = self.cursor + 1;
                    } else if b == NEWLINE {
                        // Leave the newline for the dispatcher, which
                        // counts it.
                        let tok = Token {
                            token_type: TokenType::Integer,
                            start: int_start,
                            end: self.cursor - 1,
                            line: self.line,
                        };
                        proof {
                            let c = self.cursor as int;
                            let l = self.line as int;
                            lemma_glue_step(toks_view(self.tokens@), tok@, lex_from(bytes, c, l));
                            lemma_toks_view_push(self.tokens@, tok);
                        }
                        self.tokens.push(tok);
                        mode = Mode::Normal;
                    } else if b == SPACE {
                        let tok = Token {
                            token_type: TokenType::Integer,
                            start: int_start,
                            end: self.cursor - 1,
                            line: self.line,
                        };
                        proof {
                            let c = self.cursor as int;
                            let l = self.line as int;
                            lemma_glue_step(toks_view(self.tokens@), tok@, lex_from(bytes, c + 1, l));
                            lemma_toks_view_push(self.tokens@, tok);
                        }
                        self.tokens.push(tok);
                        self.cursor = self.cursor + 1;
                        mode = Mode::Normal;
                    } else {
                        let err = LexError::InvalidNumericLiteral {
                            byte: b,
                            offset: self.cursor,
                            line: self.line,
                        };
                        self.tokens = Vec::new();
                        return Err(err);
                    }
                },
                // As above, but a second dot is fatal.
                Mode::Float => {
                    if b == DOT {
                        let err = LexError::MalformedFloat { offset: self.cursor, line: self.line };
                        self.tokens = Vec::new();
                        return Err(err);
                    } else if is_digit_byte(b) {
                        self.cursor = self.cursor + 1;
                    } else if b == NEWLINE {
                        let tok = Token {
                            token_type: TokenType::Float,
                            start: float_start,
                            end: self.cursor - 1,
                            line: self.line,
                        };
                        proof {
                            let c = self.cursor as int;
                            let l = self.line as int;
                            lemma_glue_step(toks_view(self.tokens@), tok@, lex_from(bytes, c, l));
                            lemma_toks_view_push(self.tokens@, tok);
                        }
                        self.tokens.push(tok);
                        mode = Mode::Normal;
                    } else if b == SPACE {
                        let tok = Token {
                            token_type: TokenType::Float,
                            start: float_start,
                            end: self.cursor - 1,
                            line: self.line,
                        };
                        proof {
                            let c = self.cursor as int;
                            let l = self.line as int;
                            lemma_glue_step(toks_view(self.tokens@), tok@, lex_from(bytes, c + 1, l));
                            lemma_toks_view_push(self.tokens@, tok);
                        }
                        self.tokens.push(tok);
                        self.cursor = self.cursor + 1;
                        mode = Mode::Normal;
                    } else {
                        let err = LexError::InvalidNumericLiteral {
                            byte: b,
                            offset: self.cursor,
                            line: self.line,
                        };
                        self.tokens = Vec::new();
                        return Err(err);
                    }
                },
                // Letters and digits; the terminating byte is left for
                // the dispatcher to reprocess.
                Mode::Identifier => {
                    if is_alnum_byte(b) {
                        self.cursor = self.cursor + 1;
                    } else {
                        let run = slice_subrange(self.raw.as_slice(), id_start, self.cursor);
                        let kind = match get_token(run) {
                            Some(k) => k,
                            None => TokenType::Identifier,
                        };
                        let tok = Token {
                            token_type: kind,
                            start: id_start,
                            end: self.cursor - 1,
                            line: self.line,
                        };
                        proof {
                            let c = self.cursor as int;
                            let l = self.line as int;
                            lemma_glue_step(toks_view(self.tokens@), tok@, lex_from(bytes, c, l));
                            lemma_toks_view_push(self.tokens@, tok);
                        }
                        self.tokens.push(tok);
                        mode = Mode::Normal;
                    }
                },
            }
        }

        // End of input: flush a literal still in progress, or report a
        // string that never closed.
        match mode {
            Mode::Normal => {
                proof {
                    assert(toks_view(self.tokens@) + Seq::<SpecToken>::empty() =~= toks_view(
                        self.tokens@,
                    ));
                }
                Ok(())
            },
            Mode::StringLiteral => {
                let err = LexError::UnterminatedString { line: self.line };
                self.tokens = Vec::new();
                Err(err)
            },
            Mode::Integer => {
                let tok = Token {
                    token_type: TokenType::Integer,
                    start: int_start,
                    end: self.cursor - 1,
                    line: self.line,
                };
                proof {
                    lemma_glue_last(toks_view(self.tokens@), tok@);
                    lemma_toks_view_push(self.tokens@, tok);
                }
                self.tokens.push(tok);
                Ok(())
            },
            Mode::Float => {
                let tok = Token {
                    token_type: TokenType::Float,
                    start: float_start,
                    end: self.cursor - 1,
                    line: self.line,
                };
                proof {
                    lemma_glue_last(toks_view(self.tokens@), tok@);
                    lemma_toks_view_push(self.tokens@, tok);
                }
                self.tokens.push(tok);
                Ok(())
            },
            Mode::Identifier => {
                let run = slice_subrange(self.raw.as_slice(), id_start, self.cursor);
                let kind = match get_token(run) {
                    Some(k) => k,
                    None => TokenType::Identifier,
                };
                let tok = Token {
                    token_type: kind,
                    start: id_start,
                    end: self.cursor - 1,
                    line: self.line,
                };
                proof {
                    lemma_glue_last(toks_view(self.tokens@), tok@);
                    lemma_toks_view_push(self.tokens@, tok);
                }
                self.tokens.push(tok);
                Ok(())
            },
        }
    }
}

} // verus!
