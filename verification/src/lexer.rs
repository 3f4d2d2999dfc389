//! The scanner: one linear pass over the source bytes producing the token
//! sequence, with lexical errors collected as diagnostics.
//!
//! The behaviour of a whole scan is stated once, as the recursive
//! specification [`scan_from`]; the executable scanner is proved to produce
//! exactly that token and diagnostic sequence.

use vstd::prelude::*;
use crate::tokens::Keyword;
use crate::tokens::Span;
use crate::tokens::SpecToken;
use crate::tokens::Token;
use crate::tokens::TokenType;
use crate::tokens::spec_keyword_of;

verus! {

// ASCII bytes the scanner dispatches on.
pub const B_LPAREN: u8 = 40;
pub const B_RPAREN: u8 = 41;
pub const B_LBRACE: u8 = 123;
pub const B_RBRACE: u8 = 125;
pub const B_COMMA: u8 = 44;
pub const B_DOT: u8 = 46;
pub const B_MINUS: u8 = 45;
pub const B_PLUS: u8 = 43;
pub const B_SEMICOLON: u8 = 59;
pub const B_STAR: u8 = 42;
pub const B_SLASH: u8 = 47;
pub const B_BANG: u8 = 33;
pub const B_EQUAL: u8 = 61;
pub const B_LESS: u8 = 60;
pub const B_GREATER: u8 = 62;
pub const B_SPACE: u8 = 32;
pub const B_CR: u8 = 13;
pub const B_TAB: u8 = 9;
pub const B_NEWLINE: u8 = 10;
pub const B_QUOTE: u8 = 34;

/// A lexical error, recorded during the scan instead of aborting it.
#[derive(Clone, Copy, PartialEq, Eq, Structural, Debug)]
pub enum Diagnostic {
    /// A byte that starts no token and is not whitespace, with the line
    /// it was found on.
    UnexpectedCharacter { byte: u8, line: usize },
    /// An opening quote with no closing quote before end of input.
    UnterminatedString,
}

/// The mathematical image of a [`Diagnostic`].
pub enum SpecDiagnostic {
    UnexpectedCharacter { byte: u8, line: int },
    UnterminatedString,
}

impl View for Diagnostic {
    type V = SpecDiagnostic;

    open spec fn view(&self) -> SpecDiagnostic {
        match self {
            Diagnostic::UnexpectedCharacter { byte, line } => SpecDiagnostic::UnexpectedCharacter {
                byte: *byte,
                line: *line as int,
            },
            Diagnostic::UnterminatedString => SpecDiagnostic::UnterminatedString,
        }
    }
}

/// What one scan yields: the token sequence and the diagnostic sequence.
#[verifier::ext_equal]
pub struct ScanResult {
    pub tokens: Seq<SpecToken>,
    pub diags: Seq<SpecDiagnostic>,
}

/// Prepends a token to a scan result.
pub open spec fn with_token(t: SpecToken, rest: ScanResult) -> ScanResult {
    ScanResult { tokens: seq![t] + rest.tokens, diags: rest.diags }
}

/// Prepends a diagnostic to a scan result.
pub open spec fn with_diag(d: SpecDiagnostic, rest: ScanResult) -> ScanResult {
    ScanResult { tokens: rest.tokens, diags: seq![d] + rest.diags }
}

pub open spec fn mk_token(token_type: TokenType, start: int, end: int, line: int) -> SpecToken {
    SpecToken { token_type, start, end, line }
}

/// The end-of-input sentinel: empty lexeme at the end of the source.
pub open spec fn eof_token(s: Seq<u8>, line: int) -> SpecToken {
    SpecToken { token_type: TokenType::Eof, start: s.len() as int, end: s.len() as int, line }
}

pub open spec fn spec_is_digit(b: u8) -> bool {
    48 <= b && b <= 57
}

/// ASCII letters and underscore: the bytes an identifier may start with.
pub open spec fn spec_is_alpha(b: u8) -> bool {
    (97 <= b && b <= 122) || (65 <= b && b <= 90) || b == 95
}

/// The bytes an identifier may continue with.
pub open spec fn spec_is_alnum(b: u8) -> bool {
    spec_is_alpha(b) || spec_is_digit(b)
}

/// The ten single-byte punctuation marks that always form a token by
/// themselves (`/` is excluded: it may begin a comment).
pub open spec fn is_single_punct(b: u8) -> bool {
    ||| b == B_LPAREN
    ||| b == B_RPAREN
    ||| b == B_LBRACE
    ||| b == B_RBRACE
    ||| b == B_COMMA
    ||| b == B_DOT
    ||| b == B_MINUS
    ||| b == B_PLUS
    ||| b == B_SEMICOLON
    ||| b == B_STAR
}

/// The token kind of a single-byte punctuation mark.
pub open spec fn single_punct_kind(b: u8) -> TokenType {
    if b == B_LPAREN {
        TokenType::LeftParen
    } else if b == B_RPAREN {
        TokenType::RightParen
    } else if b == B_LBRACE {
        TokenType::LeftBrace
    } else if b == B_RBRACE {
        TokenType::RightBrace
    } else if b == B_COMMA {
        TokenType::Comma
    } else if b == B_DOT {
        TokenType::Dot
    } else if b == B_MINUS {
        TokenType::Minus
    } else if b == B_PLUS {
        TokenType::Plus
    } else if b == B_SEMICOLON {
        TokenType::Semicolon
    } else {
        TokenType::Star
    }
}

/// The kind an identifier lexeme is classified as: a reserved word on an
/// exact match, else an identifier.
pub open spec fn ident_kind(lexeme: Seq<u8>) -> TokenType {
    match spec_keyword_of(lexeme) {
        Some(k) => TokenType::Keyword(k),
        None => TokenType::Identifier,
    }
}

/// Bytes left to scan; clipped so that it can serve as a termination
/// measure for every argument.
pub open spec fn rem(s: Seq<u8>, pos: int) -> int {
    if pos <= s.len() {
        s.len() - pos
    } else {
        0
    }
}

/// The whole scan from byte `pos` on line `line`: the token sequence it
/// emits (always ending in exactly one end-of-input token) and the
/// diagnostics it reports, in order.
pub open spec fn scan_from(s: Seq<u8>, pos: int, line: int) -> ScanResult
    decreases rem(s, pos), 0int,
{
    if pos < 0 || pos >= s.len() {
        ScanResult { tokens: seq![eof_token(s, line)], diags: Seq::empty() }
    } else {
        let b = s[pos];
        if is_single_punct(b) {
            with_token(mk_token(single_punct_kind(b), pos, pos + 1, line), scan_from(s, pos + 1, line))
        } else if b == B_BANG {
            if pos + 1 < s.len() && s[pos + 1] == B_EQUAL {
                with_token(mk_token(TokenType::BangEqual, pos, pos + 2, line), scan_from(s, pos + 2, line))
            } else {
                with_token(mk_token(TokenType::Bang, pos, pos + 1, line), scan_from(s, pos + 1, line))
            }
        } else if b == B_EQUAL {
            if pos + 1 < s.len() && s[pos + 1] == B_EQUAL {
                with_token(mk_token(TokenType::EqualEqual, pos, pos + 2, line), scan_from(s, pos + 2, line))
            } else {
                with_token(mk_token(TokenType::Equal, pos, pos + 1, line), scan_from(s, pos + 1, line))
            }
        } else if b == B_LESS {
            if pos + 1 < s.len() && s[pos + 1] == B_EQUAL {
                with_token(mk_token(TokenType::LessEqual, pos, pos + 2, line), scan_from(s, pos + 2, line))
            } else {
                with_token(mk_token(TokenType::Less, pos, pos + 1, line), scan_from(s, pos + 1, line))
            }
        } else if b == B_GREATER {
            if pos + 1 < s.len() && s[pos + 1] == B_EQUAL {
                with_token(mk_token(TokenType::GreaterEqual, pos, pos + 2, line), scan_from(s, pos + 2, line))
            } else {
                with_token(mk_token(TokenType::Greater, pos, pos + 1, line), scan_from(s, pos + 1, line))
            }
        } else if b == B_SLASH {
            if pos + 1 < s.len() && s[pos + 1] == B_SLASH {
                skip_comment(s, pos + 2, line)
            } else {
                with_token(mk_token(TokenType::Slash, pos, pos + 1, line), scan_from(s, pos + 1, line))
            }
        } else if b == B_SPACE || b == B_CR || b == B_TAB {
            scan_from(s, pos + 1, line)
        } else if b == B_NEWLINE {
            scan_from(s, pos + 1, line + 1)
        } else if b == B_QUOTE {
            scan_string_from(s, pos, pos + 1, line, line)
        } else if spec_is_digit(b) {
            scan_integer(s, pos, pos + 1, line)
        } else if spec_is_alpha(b) {
            scan_ident(s, pos, pos + 1, line)
        } else {
            with_diag(
                SpecDiagnostic::UnexpectedCharacter { byte: b, line },
                scan_from(s, pos + 1, line),
            )
        }
    }
}

/// A `//` comment: bytes are consumed up to, not including, the next
/// newline (or to end of input); no token is emitted.
pub open spec fn skip_comment(s: Seq<u8>, pos: int, line: int) -> ScanResult
    decreases rem(s, pos), 1int,
{
    if 0 <= pos && pos < s.len() && s[pos] != B_NEWLINE {
        skip_comment(s, pos + 1, line)
    } else {
        scan_from(s, pos, line)
    }
}

/// A string literal: `start` is the opening quote, `line0` its line, and
/// `pos` the next byte to look at. Embedded newlines advance the line
/// count. A closing quote emits a string token whose lexeme excludes both
/// quotes; end of input first reports an unterminated string and emits no
/// token.
pub open spec fn scan_string_from(s: Seq<u8>, start: int, pos: int, line0: int, line: int) -> ScanResult
    decreases rem(s, pos), 1int,
{
    if pos < 0 || pos >= s.len() {
        with_diag(SpecDiagnostic::UnterminatedString, scan_from(s, pos, line))
    } else if s[pos] == B_QUOTE {
        with_token(mk_token(TokenType::StringLit, start + 1, pos, line0), scan_from(s, pos + 1, line))
    } else if s[pos] == B_NEWLINE {
        scan_string_from(s, start, pos + 1, line0, line + 1)
    } else {
        scan_string_from(s, start, pos + 1, line0, line)
    }
}

/// The integer part of a number literal, `start` being its first digit:
/// digits are consumed greedily; a `.` followed by a digit starts the
/// fractional part; anything else ends the literal.
pub open spec fn scan_integer(s: Seq<u8>, start: int, pos: int, line: int) -> ScanResult
    decreases rem(s, pos), 1int,
{
    if 0 <= pos && pos < s.len() && spec_is_digit(s[pos]) {
        scan_integer(s, start, pos + 1, line)
    } else if 0 <= pos && pos + 1 < s.len() && s[pos] == B_DOT && spec_is_digit(s[pos + 1]) {
        scan_fraction(s, start, pos + 1, line)
    } else {
        with_token(mk_token(TokenType::Number, start, pos, line), scan_from(s, pos, line))
    }
}

/// The fractional part of a number literal, entered just after the `.`.
pub open spec fn scan_fraction(s: Seq<u8>, start: int, pos: int, line: int) -> ScanResult
    decreases rem(s, pos), 1int,
{
    if 0 <= pos && pos < s.len() && spec_is_digit(s[pos]) {
        scan_fraction(s, start, pos + 1, line)
    } else {
        with_token(mk_token(TokenType::Number, start, pos, line), scan_from(s, pos, line))
    }
}

/// An identifier or reserved word, `start` being its first byte: letters,
/// digits and underscores are consumed greedily, then the lexeme is
/// classified by [`ident_kind`].
pub open spec fn scan_ident(s: Seq<u8>, start: int, pos: int, line: int) -> ScanResult
    decreases rem(s, pos), 1int,
{
    if 0 <= pos && pos < s.len() && spec_is_alnum(s[pos]) {
        scan_ident(s, start, pos + 1, line)
    } else {
        with_token(mk_token(ident_kind(s.subrange(start, pos)), start, pos, line), scan_from(s, pos, line))
    }
}

/// The full scan of a source buffer, from its first byte on line 1.
pub open spec fn spec_scan(s: Seq<u8>) -> ScanResult {
    scan_from(s, 0, 1)
}

/// The token sequence a full scan of `s` yields.
pub open spec fn spec_tokens(s: Seq<u8>) -> Seq<SpecToken> {
    spec_scan(s).tokens
}

/// The diagnostic sequence a full scan of `s` yields.
pub open spec fn spec_diags(s: Seq<u8>) -> Seq<SpecDiagnostic> {
    spec_scan(s).diags
}

/// The views of a sequence of tokens.
pub open spec fn tokens_view(ts: Seq<Token>) -> Seq<SpecToken> {
    ts.map_values(|t: Token| t@)
}

/// The views of a sequence of diagnostics.
pub open spec fn diags_view(ds: Seq<Diagnostic>) -> Seq<SpecDiagnostic> {
    ds.map_values(|d: Diagnostic| d@)
}

/// Emitting one token leaves the composed picture of the scan unchanged:
/// the tokens already built plus the rest of the scan equal the tokens
/// built before plus the scan from the emission point.
proof fn lemma_token_step(
    toks0: Seq<Token>,
    toks1: Seq<Token>,
    t: Token,
    r_at: ScanResult,
    r_next: ScanResult,
)
    requires
        toks1 == toks0.push(t),
        r_at == with_token(t@, r_next),
    ensures
        tokens_view(toks1) + r_next.tokens =~= tokens_view(toks0) + r_at.tokens,
        r_next.diags == r_at.diags,
{
    assert(tokens_view(toks1) =~= tokens_view(toks0) + seq![t@]);
    assert(tokens_view(toks1) + r_next.tokens =~= tokens_view(toks0) + (seq![t@] + r_next.tokens));
}

/// The diagnostic counterpart of [`lemma_token_step`].
proof fn lemma_diag_step(
    dgs0: Seq<Diagnostic>,
    dgs1: Seq<Diagnostic>,
    d: Diagnostic,
    r_at: ScanResult,
    r_next: ScanResult,
)
    requires
        dgs1 == dgs0.push(d),
        r_at == with_diag(d@, r_next),
    ensures
        diags_view(dgs1) + r_next.diags =~= diags_view(dgs0) + r_at.diags,
        r_next.tokens == r_at.tokens,
{
    assert(diags_view(dgs1) =~= diags_view(dgs0) + seq![d@]);
    assert(diags_view(dgs1) + r_next.diags =~= diags_view(dgs0) + (seq![d@] + r_next.diags));
}

/// The scanner: it owns the source buffer for the duration of one scan
/// and mutates only its own cursor and line counters while building the
/// token and diagnostic sequences.
pub struct Lexer {
    pub source: Vec<u8>,
    pub tokens: Vec<Token>,
    pub diagnostics: Vec<Diagnostic>,
    /// Index of the first byte of the lexeme being recognized.
    pub start: usize,
    /// Index of the next byte to read.
    pub current: usize,
    /// Current 1-based line number.
    pub line: usize,
}

impl Lexer {
    /// A fresh scanner over `source`, positioned at its first byte.
    ///
    /// The length bound keeps the line counter, which never exceeds the
    /// number of bytes read plus one, within `usize`.
    pub fn new(source: Vec<u8>) -> (r: Lexer)
        requires
            source@.len() < usize::MAX,
        ensures
            r.source@ == source@,
            r.tokens@ == Seq::<Token>::empty(),
            r.diagnostics@ == Seq::<Diagnostic>::empty(),
            r.start == 0,
            r.current == 0,
            r.line == 1,
    {
        Lexer {
            source,
            tokens: Vec::new(),
            diagnostics: Vec::new(),
            start: 0,
            current: 0,
            line: 1,
        }
    }

    pub open spec fn spec_is_at_end(&self) -> bool {
        self.current >= self.source@.len()
    }

    fn is_at_end(&self) -> (r: bool)
        ensures
            r == self.spec_is_at_end(),
    {
        self.current >= self.source.len()
    }

    /// Returns the byte at the cursor and moves the cursor past it.
    fn advance(&mut self) -> (c: u8)
        requires
            old(self).current < old(self).source@.len(),
        ensures
            c == old(self).source@[old(self).current as int],
            final(self).current == old(self).current + 1,
            final(self).source@ == old(self).source@,
            final(self).start == old(self).start,
            final(self).line == old(self).line,
            final(self).tokens@ == old(self).tokens@,
            final(self).diagnostics@ == old(self).diagnostics@,
    {
        let n = self.source.len();
        proof {
            assert(self.current < n);
        }
        let c = self.source[self.current];
        self.current = self.current + 1;
        c
    }

    /// One byte of lookahead: consumes the byte at the cursor only if it
    /// equals `expected`; reports whether it did.
    fn advance_match(&mut self, expected: u8) -> (r: bool)
        requires
            old(self).current <= old(self).source@.len(),
        ensures
            r == (old(self).current < old(self).source@.len()
                && old(self).source@[old(self).current as int] == expected),
            final(self).current == if r {
                old(self).current + 1
            } else {
                old(self).current as int
            },
            final(self).source@ == old(self).source@,
            final(self).start == old(self).start,
            final(self).line == old(self).line,
            final(self).tokens@ == old(self).tokens@,
            final(self).diagnostics@ == old(self).diagnostics@,
    {
        if self.is_at_end() {
            return false;
        }
        let n = self.source.len();
        proof {
            assert(self.current < n);
        }
        if self.source[self.current] == expected {
            self.current = self.current + 1;
            true
        } else {
            false
        }
    }

    /// The byte at the cursor, or 0 at end of input, without consuming it.
    fn peek(&self) -> (c: u8)
        ensures
            c == if self.current < self.source@.len() {
                self.source@[self.current as int]
            } else {
                0u8
            },
    {
        if self.is_at_end() {
            0
        } else {
            self.source[self.current]
        }
    }

    /// The byte after the cursor, or 0 if there is none, without
    /// consuming anything.
    fn peek_next(&self) -> (c: u8)
        requires
            self.current < usize::MAX,
        ensures
            c == if self.current + 1 < self.source@.len() {
                self.source@[self.current as int + 1]
            } else {
                0u8
            },
    {
        let index = self.current + 1;
        if index >= self.source.len() {
            0
        } else {
            self.source[index]
        }
    }

    fn is_digit(c: u8) -> (r: bool)
        ensures
            r == spec_is_digit(c),
    {
        48 <= c && c <= 57
    }

    fn is_alpha(c: u8) -> (r: bool)
        ensures
            r == spec_is_alpha(c),
    {
        (97 <= c && c <= 122) || (65 <= c && c <= 90) || c == 95
    }

    /// Emits a token of kind `token_type` whose lexeme is the span from
    /// `start` to the cursor, on the current line.
    fn add_token(&mut self, token_type: TokenType)
        ensures
            final(self).tokens@ == old(self).tokens@.push(
                Token {
                    token_type,
                    lexeme: Span { start: old(self).start, end: old(self).current },
                    line: old(self).line,
                },
            ),
            final(self).source@ == old(self).source@,
            final(self).start == old(self).start,
            final(self).current == old(self).current,
            final(self).line == old(self).line,
            final(self).diagnostics@ == old(self).diagnostics@,
    {
        let t = Token {
            token_type,
            lexeme: Span { start: self.start, end: self.current },
            line: self.line,
        };
        self.tokens.push(t);
    }

    /// The single-byte punctuation token a byte forms, if any.
    fn single_punct(c: u8) -> (r: Option<TokenType>)
        ensures
            r == if is_single_punct(c) {
                Some(single_punct_kind(c))
            } else {
                None::<TokenType>
            },
    {
        if c == B_LPAREN {
            Some(TokenType::LeftParen)
        } else if c == B_RPAREN {
            Some(TokenType::RightParen)
        } else if c == B_LBRACE {
            Some(TokenType::LeftBrace)
        } else if c == B_RBRACE {
            Some(TokenType::RightBrace)
        } else if c == B_COMMA {
            Some(TokenType::Comma)
        } else if c == B_DOT {
            Some(TokenType::Dot)
        } else if c == B_MINUS {
            Some(TokenType::Minus)
        } else if c == B_PLUS {
            Some(TokenType::Plus)
        } else if c == B_SEMICOLON {
            Some(TokenType::Semicolon)
        } else if c == B_STAR {
            Some(TokenType::Star)
        } else {
            None
        }
    }

    /// Scans a string literal: the opening quote is at `start`, the cursor
    /// just past it. Embedded newlines advance the line counter. A closing
    /// quote emits a string token (quotes excluded, on the opening quote's
    /// line); end of input first records an unterminated-string diagnostic
    /// and emits no token.
    fn scan_string(&mut self)
        requires
            old(self).start + 1 == old(self).current,
            old(self).current <= old(self).source@.len(),
            old(self).source@.len() < usize::MAX,
            old(self).source@[old(self).start as int] == B_QUOTE,
            1 <= old(self).line,
            old(self).line <= old(self).current,
        ensures
            final(self).source@ == old(self).source@,
            final(self).start == old(self).start,
            old(self).current <= final(self).current,
            final(self).current <= old(self).source@.len(),
            old(self).line <= final(self).line,
            final(self).line <= final(self).current + 1,
            tokens_view(final(self).tokens@) + scan_from(
                old(self).source@,
                final(self).current as int,
                final(self).line as int,
            ).tokens =~= tokens_view(old(self).tokens@) + scan_string_from(
                old(self).source@,
                old(self).start as int,
                old(self).current as int,
                old(self).line as int,
                old(self).line as int,
            ).tokens,
            diags_view(final(self).diagnostics@) + scan_from(
                old(self).source@,
                final(self).current as int,
                final(self).line as int,
            ).diags =~= diags_view(old(self).diagnostics@) + scan_string_from(
                old(self).source@,
                old(self).start as int,
                old(self).current as int,
                old(self).line as int,
                old(self).line as int,
            ).diags,
    {
        let ghost s = self.source@;
        let ghost st: int = self.start as int;
        let ghost c0: int = self.current as int;
        let ghost l0: int = self.line as int;
        let ghost toks0 = self.tokens@;
        let ghost dgs0 = self.diagnostics@;
        let line_start: usize = self.line;

        while self.current < self.source.len() && self.source[self.current] != B_QUOTE
            invariant
                self.source@ == s,
                self.start as int == st,
                self.tokens@ == toks0,
                self.diagnostics@ == dgs0,
                c0 <= self.current as int,
                self.current as int <= s.len(),
                s.len() < usize::MAX,
                l0 <= self.line as int,
                self.line as int - l0 <= self.current as int - c0,
                line_start as int == l0,
                1 <= l0,
                l0 <= c0,
                scan_string_from(s, st, self.current as int, l0, self.line as int)
                    == scan_string_from(s, st, c0, l0, l0),
            decreases s.len() - self.current as int,
        {
            let ghost cp: int = self.current as int;
            let ghost lp: int = self.line as int;
            if self.source[self.current] == B_NEWLINE {
                self.line = self.line + 1;
            }
            self.current = self.current + 1;
            proof {
                assert(scan_string_from(s, st, cp, l0, lp)
                    == scan_string_from(s, st, cp + 1, l0, self.line as int));
            }
        }

        if self.current >= self.source.len() {
            let d = Diagnostic::UnterminatedString;
            self.diagnostics.push(d);
            proof {
                assert(scan_string_from(s, st, self.current as int, l0, self.line as int)
                    == with_diag(
                    SpecDiagnostic::UnterminatedString,
                    scan_from(s, self.current as int, self.line as int),
                ));
                lemma_diag_step(
                    dgs0,
                    self.diagnostics@,
                    d,
                    scan_string_from(s, st, c0, l0, l0),
                    scan_from(s, self.current as int, self.line as int),
                );
            }
        } else {
            let t = Token {
                token_type: TokenType::StringLit,
                lexeme: Span { start: self.start + 1, end: self.current },
                line: line_start,
            };
            self.tokens.push(t);
            proof {
                assert(t@ == mk_token(TokenType::StringLit, st + 1, self.current as int, l0));
                assert(scan_string_from(s, st, self.current as int, l0, self.line as int)
                    == with_token(t@, scan_from(s, self.current as int + 1, self.line as int)));
                lemma_token_step(
                    toks0,
                    self.tokens@,
                    t,
                    scan_string_from(s, st, c0, l0, l0),
                    scan_from(s, self.current as int + 1, self.line as int),
                );
            }
            self.current = self.current + 1;
        }
    }

    /// Scans a number literal: the first digit is at `start`, already
    /// consumed. Further digits are consumed greedily, then a `.` followed
    /// by a digit starts the fractional part. Emits one number token whose
    /// lexeme is the whole literal.
    fn scan_number(&mut self)
        requires
            old(self).start + 1 == old(self).current,
            old(self).current <= old(self).source@.len(),
            old(self).source@.len() < usize::MAX,
            spec_is_digit(old(self).source@[old(self).start as int]),
            1 <= old(self).line,
        ensures
            final(self).source@ == old(self).source@,
            final(self).start == old(self).start,
            old(self).current <= final(self).current,
            final(self).current <= old(self).source@.len(),
            final(self).line == old(self).line,
            tokens_view(final(self).tokens@) + scan_from(
                old(self).source@,
                final(self).current as int,
                final(self).line as int,
            ).tokens =~= tokens_view(old(self).tokens@) + scan_integer(
                old(self).source@,
                old(self).start as int,
                old(self).current as int,
                old(self).line as int,
            ).tokens,
            diags_view(final(self).diagnostics@) + scan_from(
                old(self).source@,
                final(self).current as int,
                final(self).line as int,
            ).diags =~= diags_view(old(self).diagnostics@) + scan_integer(
                old(self).source@,
                old(self).start as int,
                old(self).current as int,
                old(self).line as int,
            ).diags,
    {
        let ghost s = self.source@;
        let ghost st: int = self.start as int;
        let ghost c0: int = self.current as int;
        let ghost l: int = self.line as int;
        let ghost toks0 = self.tokens@;
        let ghost dgs0 = self.diagnostics@;

        while self.current < self.source.len() && 48 <= self.source[self.current]
            && self.source[self.current] <= 57
            invariant
                self.source@ == s,
                self.start as int == st,
                self.line as int == l,
                self.tokens@ == toks0,
                self.diagnostics@ == dgs0,
                c0 <= self.current as int,
                self.current as int <= s.len(),
                scan_integer(s, st, self.current as int, l) == scan_integer(s, st, c0, l),
            decreases s.len() - self.current as int,
        {
            let ghost cp: int = self.current as int;
            self.current = self.current + 1;
            proof {
                assert(scan_integer(s, st, cp, l) == scan_integer(s, st, cp + 1, l));
            }
        }

        let next: u8 = self.peek();
        let after_next: u8 = self.peek_next();
        if next == B_DOT && Self::is_digit(after_next) {
            proof {
                assert(scan_integer(s, st, self.current as int, l)
                    == scan_fraction(s, st, self.current as int + 1, l));
            }
            self.current = self.current + 1;
            let ghost cf0: int = self.current as int;
            while self.current < self.source.len() && 48 <= self.source[self.current]
                && self.source[self.current] <= 57
                invariant
                    self.source@ == s,
                    self.start as int == st,
                    self.line as int == l,
                    self.tokens@ == toks0,
                    self.diagnostics@ == dgs0,
                    cf0 <= self.current as int,
                    self.current as int <= s.len(),
                    scan_fraction(s, st, self.current as int, l) == scan_fraction(s, st, cf0, l),
                decreases s.len() - self.current as int,
            {
                let ghost cp: int = self.current as int;
                self.current = self.current + 1;
                proof {
                    assert(scan_fraction(s, st, cp, l) == scan_fraction(s, st, cp + 1, l));
                }
            }
            proof {
                assert(scan_fraction(s, st, self.current as int, l) == with_token(
                    mk_token(TokenType::Number, st, self.current as int, l),
                    scan_from(s, self.current as int, l),
                ));
                assert(scan_integer(s, st, c0, l) == with_token(
                    mk_token(TokenType::Number, st, self.current as int, l),
                    scan_from(s, self.current as int, l),
                ));
            }
        } else {
            proof {
                assert(scan_integer(s, st, self.current as int, l) == with_token(
                    mk_token(TokenType::Number, st, self.current as int, l),
                    scan_from(s, self.current as int, l),
                ));
            }
        }
        proof {
            assert(scan_integer(s, st, c0, l) == with_token(
                mk_token(TokenType::Number, st, self.current as int, l),
                scan_from(s, self.current as int, l),
            ));
        }
        self.add_token(TokenType::Number);
        proof {
            let t = Token {
                token_type: TokenType::Number,
                lexeme: Span { start: self.start, end: self.current },
                line: self.line,
            };
            lemma_token_step(
                toks0,
                self.tokens@,
                t,
                scan_integer(s, st, c0, l),
                scan_from(s, self.current as int, l),
            );
        }
    }

    fn is_alnum(c: u8) -> (r: bool)
        ensures
            r == spec_is_alnum(c),
    {
        Self::is_alpha(c) || Self::is_digit(c)
    }

    /// Scans an identifier or reserved word: the first letter or
    /// underscore is at `start`, already consumed. Letters, digits and
    /// underscores are consumed greedily; the lexeme is then looked up in
    /// the keyword table to pick the token kind.
    fn scan_ident_and_keyword(&mut self)
        requires
            old(self).start + 1 == old(self).current,
            old(self).current <= old(self).source@.len(),
            old(self).source@.len() < usize::MAX,
            spec_is_alpha(old(self).source@[old(self).start as int]),
            1 <= old(self).line,
        ensures
            final(self).source@ == old(self).source@,
            final(self).start == old(self).start,
            old(self).current <= final(self).current,
            final(self).current <= old(self).source@.len(),
            final(self).line == old(self).line,
            tokens_view(final(self).tokens@) + scan_from(
                old(self).source@,
                final(self).current as int,
                final(self).line as int,
            ).tokens =~= tokens_view(old(self).tokens@) + scan_ident(
                old(self).source@,
                old(self).start as int,
                old(self).current as int,
                old(self).line as int,
            ).tokens,
            diags_view(final(self).diagnostics@) + scan_from(
                old(self).source@,
                final(self).current as int,
                final(self).line as int,
            ).diags =~= diags_view(old(self).diagnostics@) + scan_ident(
                old(self).source@,
                old(self).start as int,
                old(self).current as int,
                old(self).line as int,
            ).diags,
    {
        let ghost s = self.source@;
        let ghost st: int = self.start as int;
        let ghost c0: int = self.current as int;
        let ghost l: int = self.line as int;
        let ghost toks0 = self.tokens@;
        let ghost dgs0 = self.diagnostics@;

        while self.current < self.source.len() && Self::is_alnum(self.source[self.current])
            invariant
                self.source@ == s,
                self.start as int == st,
                self.line as int == l,
                self.tokens@ == toks0,
                self.diagnostics@ == dgs0,
                c0 <= self.current as int,
                self.current as int <= s.len(),
                st < c0,
                scan_ident(s, st, self.current as int, l) == scan_ident(s, st, c0, l),
            decreases s.len() - self.current as int,
        {
            let ghost cp: int = self.current as int;
            self.current = self.current + 1;
            proof {
                assert(scan_ident(s, st, cp, l) == scan_ident(s, st, cp + 1, l));
            }
        }

        let lex: &[u8] = vstd::slice::slice_subrange(
            self.source.as_slice(),
            self.start,
            self.current,
        );
        let k: Option<Keyword> = Keyword::from_str(lex);
        let tt: TokenType = match k {
            Some(kw) => TokenType::Keyword(kw),
            None => TokenType::Identifier,
        };
        proof {
            assert(lex@ == s.subrange(st, self.current as int));
            assert(tt == ident_kind(s.subrange(st, self.current as int)));
            assert(scan_ident(s, st, self.current as int, l) == with_token(
                mk_token(ident_kind(s.subrange(st, self.current as int)), st, self.current as int, l),
                scan_from(s, self.current as int, l),
            ));
        }
        self.add_token(tt);
        proof {
            let t = Token {
                token_type: tt,
                lexeme: Span { start: self.start, end: self.current },
                line: self.line,
            };
            lemma_token_step(
                toks0,
                self.tokens@,
                t,
                scan_ident(s, st, c0, l),
                scan_from(s, self.current as int, l),
            );
        }
    }

    /// Scans one token (or skips whitespace, a comment, or an invalid
    /// byte) starting at the cursor, which must equal `start`.
    fn scan_token(&mut self)
        requires
            old(self).start == old(self).current,
            old(self).current < old(self).source@.len(),
            old(self).source@.len() < usize::MAX,
            1 <= old(self).line,
            old(self).line <= old(self).current + 1,
        ensures
            final(self).source@ == old(self).source@,
            final(self).start == old(self).start,
            old(self).current < final(self).current,
            final(self).current <= old(self).source@.len(),
            old(self).line <= final(self).line,
            final(self).line <= final(self).current + 1,
            tokens_view(final(self).tokens@) + scan_from(
                old(self).source@,
                final(self).current as int,
                final(self).line as int,
            ).tokens =~= tokens_view(old(self).tokens@) + scan_from(
                old(self).source@,
                old(self).current as int,
                old(self).line as int,
            ).tokens,
            diags_view(final(self).diagnostics@) + scan_from(
                old(self).source@,
                final(self).current as int,
                final(self).line as int,
            ).diags =~= diags_view(old(self).diagnostics@) + scan_from(
                old(self).source@,
                old(self).current as int,
                old(self).line as int,
            ).diags,
    {
        let ghost s = self.source@;
        let ghost p: int = self.current as int;
        let ghost l: int = self.line as int;
        let ghost toks0 = self.tokens@;
        let ghost dgs0 = self.diagnostics@;

        let c: u8 = self.advance();
        let sp: Option<TokenType> = Self::single_punct(c);
        if let Some(tt) = sp {
            self.add_token(tt);
            proof {
                let t = Token {
                    token_type: tt,
                    lexeme: Span { start: self.start, end: self.current },
                    line: self.line,
                };
                assert(scan_from(s, p, l) == with_token(t@, scan_from(s, p + 1, l)));
                lemma_token_step(toks0, self.tokens@, t, scan_from(s, p, l), scan_from(s, p + 1, l));
            }
        } else if c == B_BANG {
            let matched: bool = self.advance_match(B_EQUAL);
            let tt: TokenType = if matched {
                TokenType::BangEqual
            } else {
                TokenType::Bang
            };
            self.add_token(tt);
            proof {
                let t = Token {
                    token_type: tt,
                    lexeme: Span { start: self.start, end: self.current },
                    line: self.line,
                };
                assert(scan_from(s, p, l) == with_token(t@, scan_from(s, self.current as int, l)));
                lemma_token_step(
                    toks0,
                    self.tokens@,
                    t,
                    scan_from(s, p, l),
                    scan_from(s, self.current as int, l),
                );
            }
        } else if c == B_EQUAL {
            let matched: bool = self.advance_match(B_EQUAL);
            let tt: TokenType = if matched {
                TokenType::EqualEqual
            } else {
                TokenType::Equal
            };
            self.add_token(tt);
            proof {
                let t = Token {
                    token_type: tt,
                    lexeme: Span { start: self.start, end: self.current },
                    line: self.line,
                };
                assert(scan_from(s, p, l) == with_token(t@, scan_from(s, self.current as int, l)));
                lemma_token_step(
                    toks0,
                    self.tokens@,
                    t,
                    scan_from(s, p, l),
                    scan_from(s, self.current as int, l),
                );
            }
        } else if c == B_LESS {
            let matched: bool = self.advance_match(B_EQUAL);
            let tt: TokenType = if matched {
                TokenType::LessEqual
            } else {
                TokenType::Less
            };
            self.add_token(tt);
            proof {
                let t = Token {
                    token_type: tt,
                    lexeme: Span { start: self.start, end: self.current },
                    line: self.line,
                };
                assert(scan_from(s, p, l) == with_token(t@, scan_from(s, self.current as int, l)));
                lemma_token_step(
                    toks0,
                    self.tokens@,
                    t,
                    scan_from(s, p, l),
                    scan_from(s, self.current as int, l),
                );
            }
        } else if c == B_GREATER {
            let matched: bool = self.advance_match(B_EQUAL);
            let tt: TokenType = if matched {
                TokenType::GreaterEqual
            } else {
                TokenType::Greater
            };
            self.add_token(tt);
            proof {
                let t = Token {
                    token_type: tt,
                    lexeme: Span { start: self.start, end: self.current },
                    line: self.line,
                };
                assert(scan_from(s, p, l) == with_token(t@, scan_from(s, self.current as int, l)));
                lemma_token_step(
                    toks0,
                    self.tokens@,
                    t,
                    scan_from(s, p, l),
                    scan_from(s, self.current as int, l),
                );
            }
        } else if c == B_SLASH {
            let matched: bool = self.advance_match(B_SLASH);
            if matched {
                let ghost c2: int = self.current as int;
                while self.current < self.source.len() && self.source[self.current] != B_NEWLINE
                    invariant
                        self.source@ == s,
                        self.start as int == p,
                        self.line as int == l,
                        self.tokens@ == toks0,
                        self.diagnostics@ == dgs0,
                        c2 <= self.current as int,
                        self.current as int <= s.len(),
                        skip_comment(s, self.current as int, l) == skip_comment(s, c2, l),
                    decreases s.len() - self.current as int,
                {
                    let ghost cp: int = self.current as int;
                    self.current = self.current + 1;
                    proof {
                        assert(skip_comment(s, cp, l) == skip_comment(s, cp + 1, l));
                    }
                }
                proof {
                    assert(skip_comment(s, self.current as int, l)
                        == scan_from(s, self.current as int, l));
                    assert(scan_from(s, p, l) == skip_comment(s, c2, l));
                }
            } else {
                self.add_token(TokenType::Slash);
                proof {
                    let t = Token {
                        token_type: TokenType::Slash,
                        lexeme: Span { start: self.start, end: self.current },
                        line: self.line,
                    };
                    assert(scan_from(s, p, l) == with_token(t@, scan_from(s, p + 1, l)));
                    lemma_token_step(
                        toks0,
                        self.tokens@,
                        t,
                        scan_from(s, p, l),
                        scan_from(s, p + 1, l),
                    );
                }
            }
        } else if c == B_SPACE || c == B_CR || c == B_TAB {
            proof {
                assert(scan_from(s, p, l) == scan_from(s, p + 1, l));
            }
        } else if c == B_NEWLINE {
            self.line = self.line + 1;
            proof {
                assert(scan_from(s, p, l) == scan_from(s, p + 1, l + 1));
            }
        } else if c == B_QUOTE {
            proof {
                assert(scan_from(s, p, l) == scan_string_from(s, p, p + 1, l, l));
            }
            self.scan_string();
        } else if Self::is_digit(c) {
            proof {
                assert(scan_from(s, p, l) == scan_integer(s, p, p + 1, l));
            }
            self.scan_number();
        } else if Self::is_alpha(c) {
            proof {
                assert(scan_from(s, p, l) == scan_ident(s, p, p + 1, l));
            }
            self.scan_ident_and_keyword();
        } else {
            let d = Diagnostic::UnexpectedCharacter { byte: c, line: self.line };
            self.diagnostics.push(d);
            proof {
                assert(scan_from(s, p, l) == with_diag(d@, scan_from(s, p + 1, l)));
                lemma_diag_step(dgs0, self.diagnostics@, d, scan_from(s, p, l), scan_from(s, p + 1, l));
            }
        }
    }

    /// One full left-to-right pass over the source: returns the complete
    /// token sequence, which is exactly the one the specification scanner
    /// yields for this source, and leaves the diagnostics it reported, in
    /// order, in `self.diagnostics`. A scan of the same bytes always
    /// produces the same sequences.
    pub fn scan_tokens(&mut self) -> (r: Vec<Token>)
        requires
            old(self).start == 0,
            old(self).current == 0,
            old(self).line == 1,
            old(self).tokens@ == Seq::<Token>::empty(),
            old(self).diagnostics@ == Seq::<Diagnostic>::empty(),
            old(self).source@.len() < usize::MAX,
        ensures
            final(self).source@ == old(self).source@,
            r@ == final(self).tokens@,
            tokens_view(r@) =~= spec_tokens(old(self).source@),
            diags_view(final(self).diagnostics@) =~= spec_diags(old(self).source@),
    {
        let ghost s = self.source@;

        while self.current < self.source.len()
            invariant
                self.source@ == s,
                self.current as int <= s.len(),
                s.len() < usize::MAX,
                1 <= self.line,
                self.line as int <= self.current as int + 1,
                tokens_view(self.tokens@) + scan_from(s, self.current as int, self.line as int).tokens
                    =~= scan_from(s, 0, 1).tokens,
                diags_view(self.diagnostics@) + scan_from(s, self.current as int, self.line as int).diags
                    =~= scan_from(s, 0, 1).diags,
            decreases s.len() - self.current as int,
        {
            self.start = self.current;
            self.scan_token();
        }

        let ghost toks_pre = self.tokens@;
        let t = Token {
            token_type: TokenType::Eof,
            lexeme: Span { start: self.current, end: self.current },
            line: self.line,
        };
        self.tokens.push(t);
        proof {
            assert(t@ == eof_token(s, self.line as int));
            assert(scan_from(s, self.current as int, self.line as int).tokens == seq![t@]);
            assert(scan_from(s, self.current as int, self.line as int).diags
                == Seq::<SpecDiagnostic>::empty());
            assert(tokens_view(self.tokens@) =~= tokens_view(toks_pre) + seq![t@]);
            assert(tokens_view(self.tokens@) =~= spec_tokens(s));
            assert(diags_view(self.diagnostics@)
                =~= diags_view(self.diagnostics@) + Seq::<SpecDiagnostic>::empty());
            assert(diags_view(self.diagnostics@) =~= spec_diags(s));
        }

        let mut r: Vec<Token> = Vec::new();
        let mut i: usize = 0;
        while i < self.tokens.len()
            invariant
                i <= self.tokens@.len(),
                r@ == self.tokens@.subrange(0, i as int),
            decreases self.tokens@.len() - i,
        {
            r.push(self.tokens[i]);
            i = i + 1;
            proof {
                assert(r@ =~= self.tokens@.subrange(0, i as int));
            }
        }
        proof {
            assert(r@ =~= self.tokens@);
        }
        r
    }
}

} // verus!
