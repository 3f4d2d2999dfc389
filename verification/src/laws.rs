//! Laws of the scanner: invariants of every token sequence the
//! specification scanner yields, proved once and for all sources.

use vstd::prelude::*;
use crate::tokens::SpecToken;
use crate::tokens::TokenType;
use crate::tokens::spec_keyword_of;
use crate::lexer::B_BANG;
use crate::lexer::B_CR;
use crate::lexer::B_DOT;
use crate::lexer::B_EQUAL;
use crate::lexer::B_GREATER;
use crate::lexer::B_LESS;
use crate::lexer::B_NEWLINE;
use crate::lexer::B_QUOTE;
use crate::lexer::B_SLASH;
use crate::lexer::B_SPACE;
use crate::lexer::B_TAB;
use crate::lexer::ScanResult;
use crate::lexer::eof_token;
use crate::lexer::ident_kind;
use crate::lexer::is_single_punct;
use crate::lexer::mk_token;
use crate::lexer::rem;
use crate::lexer::scan_from;
use crate::lexer::scan_fraction;
use crate::lexer::scan_ident;
use crate::lexer::scan_integer;
use crate::lexer::scan_string_from;
use crate::lexer::single_punct_kind;
use crate::lexer::skip_comment;
use crate::lexer::spec_is_alnum;
use crate::lexer::spec_is_alpha;
use crate::lexer::spec_is_digit;
use crate::lexer::spec_tokens;
use crate::lexer::with_token;

verus! {

/// Every byte of `l` is an ASCII digit.
pub open spec fn all_digits(l: Seq<u8>) -> bool {
    forall|i: int| 0 <= i < l.len() ==> spec_is_digit(#[trigger] l[i])
}

/// The decimal number grammar: one or more digits, optionally followed by
/// a dot and one or more further digits.
pub open spec fn is_number_lexeme(l: Seq<u8>) -> bool {
    l.len() >= 1 && (all_digits(l) || (exists|d: int|
        0 < d < l.len() - 1 && #[trigger] l[d] == B_DOT && all_digits(l.subrange(0, d))
            && all_digits(l.subrange(d + 1, l.len() as int))))
}

/// The identifier grammar: a letter or underscore followed by letters,
/// digits and underscores.
pub open spec fn is_ident_lexeme(l: Seq<u8>) -> bool {
    l.len() >= 1 && spec_is_alpha(l[0]) && forall|i: int|
        0 <= i < l.len() ==> spec_is_alnum(#[trigger] l[i])
}

/// What the source bytes under a token's span look like, by kind: fixed
/// marks and operators cover exactly their own characters, literal kinds
/// match their grammar, and a string's span sits strictly between its two
/// quotes.
pub open spec fn token_lexeme_ok(s: Seq<u8>, t: SpecToken) -> bool {
    match t.token_type {
        TokenType::Bang => t.end == t.start + 1 && s[t.start] == B_BANG,
        TokenType::BangEqual => t.end == t.start + 2 && s[t.start] == B_BANG && s[t.start + 1]
            == B_EQUAL,
        TokenType::Equal => t.end == t.start + 1 && s[t.start] == B_EQUAL,
        TokenType::EqualEqual => t.end == t.start + 2 && s[t.start] == B_EQUAL && s[t.start + 1]
            == B_EQUAL,
        TokenType::Less => t.end == t.start + 1 && s[t.start] == B_LESS,
        TokenType::LessEqual => t.end == t.start + 2 && s[t.start] == B_LESS && s[t.start + 1]
            == B_EQUAL,
        TokenType::Greater => t.end == t.start + 1 && s[t.start] == B_GREATER,
        TokenType::GreaterEqual => t.end == t.start + 2 && s[t.start] == B_GREATER && s[t.start + 1]
            == B_EQUAL,
        TokenType::Slash => t.end == t.start + 1 && s[t.start] == B_SLASH,
        TokenType::Identifier => is_ident_lexeme(s.subrange(t.start, t.end)) && spec_keyword_of(
            s.subrange(t.start, t.end),
        ) is None,
        TokenType::StringLit => 0 < t.start && s[t.start - 1] == B_QUOTE && t.end < s.len()
            && s[t.end] == B_QUOTE,
        TokenType::Number => is_number_lexeme(s.subrange(t.start, t.end)),
        TokenType::Keyword(k) => spec_keyword_of(s.subrange(t.start, t.end)) == Some(k),
        TokenType::Eof => t.start == s.len() && t.end == s.len(),
        _ => t.end == t.start + 1 && is_single_punct(s[t.start]) && single_punct_kind(s[t.start])
            == t.token_type,
    }
}

/// What holds of every non-sentinel token a scan from `pos` on `line`
/// emits: it is not the sentinel, its span lies between the scan position
/// and the end of the source, its line is at least the current one, and
/// its lexeme matches its kind.
pub open spec fn token_ok(s: Seq<u8>, t: SpecToken, pos: int, line: int) -> bool {
    &&& t.token_type != TokenType::Eof
    &&& pos <= t.start
    &&& t.start <= t.end
    &&& t.end <= s.len()
    &&& line <= t.line
    &&& token_lexeme_ok(s, t)
}

/// Well-formedness of a scan result relative to its starting position and
/// line: the token sequence ends with exactly one end-of-input token with
/// an empty lexeme at the end of the source, every other token satisfies
/// [`token_ok`], and line numbers never decrease along the sequence.
pub open spec fn scan_wf(s: Seq<u8>, pos: int, line: int, r: ScanResult) -> bool {
    &&& r.tokens.len() >= 1
    &&& r.tokens.last().token_type == TokenType::Eof
    &&& r.tokens.last().start == s.len()
    &&& r.tokens.last().end == s.len()
    &&& line <= r.tokens.last().line
    &&& forall|i: int| 0 <= i < r.tokens.len() - 1 ==> token_ok(s, #[trigger] r.tokens[i], pos, line)
    &&& forall|i: int, j: int|
        0 <= i && i <= j && j < r.tokens.len() ==> #[trigger] r.tokens[i].line
            <= #[trigger] r.tokens[j].line
}

/// Well-formedness weakens to an earlier position and line.
proof fn lemma_wf_weaken(s: Seq<u8>, pos: int, line: int, pos2: int, line2: int, r: ScanResult)
    requires
        scan_wf(s, pos2, line2, r),
        pos <= pos2,
        line <= line2,
    ensures
        scan_wf(s, pos, line, r),
{
    assert forall|i: int| 0 <= i < r.tokens.len() - 1 implies token_ok(
        s,
        #[trigger] r.tokens[i],
        pos,
        line,
    ) by {
        assert(token_ok(s, r.tokens[i], pos2, line2));
    }
}

/// Prepending a well-placed token preserves well-formedness.
proof fn lemma_wf_cons_token(
    s: Seq<u8>,
    pos: int,
    line: int,
    pos2: int,
    line2: int,
    t: SpecToken,
    rest: ScanResult,
)
    requires
        scan_wf(s, pos2, line2, rest),
        pos <= pos2,
        line <= line2,
        t.token_type != TokenType::Eof,
        pos <= t.start,
        t.start <= t.end,
        t.end <= s.len(),
        line <= t.line,
        t.line <= line2,
        token_lexeme_ok(s, t),
    ensures
        scan_wf(s, pos, line, with_token(t, rest)),
{
    let r = with_token(t, rest);
    assert(r.tokens.len() == 1 + rest.tokens.len());
    assert(r.tokens.last() == rest.tokens.last());
    assert forall|i: int| 0 <= i < r.tokens.len() - 1 implies token_ok(
        s,
        #[trigger] r.tokens[i],
        pos,
        line,
    ) by {
        if i == 0 {
            assert(r.tokens[0] == t);
        } else {
            assert(r.tokens[i] == rest.tokens[i - 1]);
            assert(token_ok(s, rest.tokens[i - 1], pos2, line2));
        }
    }
    assert forall|i: int, j: int| 0 <= i && i <= j && j < r.tokens.len() implies
        #[trigger] r.tokens[i].line <= #[trigger] r.tokens[j].line by {
        if i == 0 {
            if j > 0 {
                assert(r.tokens[j] == rest.tokens[j - 1]);
                if j - 1 < rest.tokens.len() - 1 {
                    assert(token_ok(s, rest.tokens[j - 1], pos2, line2));
                } else {
                    assert(rest.tokens[j - 1] == rest.tokens.last());
                }
                assert(t.line <= r.tokens[j].line);
            }
        } else {
            assert(r.tokens[i] == rest.tokens[i - 1]);
            assert(r.tokens[j] == rest.tokens[j - 1]);
        }
    }
}

proof fn lemma_scan_from_wf(s: Seq<u8>, pos: int, line: int)
    requires
        0 <= pos,
        pos <= s.len(),
        1 <= line,
    ensures
        scan_wf(s, pos, line, scan_from(s, pos, line)),
    decreases rem(s, pos), 0int,
{
    let r = scan_from(s, pos, line);
    if pos >= s.len() {
        assert(r.tokens == seq![eof_token(s, line)]);
    } else {
        let b = s[pos];
        if is_single_punct(b) {
            lemma_scan_from_wf(s, pos + 1, line);
            let t = mk_token(single_punct_kind(b), pos, pos + 1, line);
            assert(t.token_type != TokenType::Eof);
            assert(token_lexeme_ok(s, t));
            lemma_wf_cons_token(s, pos, line, pos + 1, line, t, scan_from(s, pos + 1, line));
        } else if b == B_BANG || b == B_EQUAL || b == B_LESS || b == B_GREATER {
            if pos + 1 < s.len() && s[pos + 1] == B_EQUAL {
                lemma_scan_from_wf(s, pos + 2, line);
                let kind = if b == B_BANG {
                    TokenType::BangEqual
                } else if b == B_EQUAL {
                    TokenType::EqualEqual
                } else if b == B_LESS {
                    TokenType::LessEqual
                } else {
                    TokenType::GreaterEqual
                };
                let t = mk_token(kind, pos, pos + 2, line);
                assert(token_lexeme_ok(s, t));
                lemma_wf_cons_token(s, pos, line, pos + 2, line, t, scan_from(s, pos + 2, line));
            } else {
                lemma_scan_from_wf(s, pos + 1, line);
                let kind = if b == B_BANG {
                    TokenType::Bang
                } else if b == B_EQUAL {
                    TokenType::Equal
                } else if b == B_LESS {
                    TokenType::Less
                } else {
                    TokenType::Greater
                };
                let t = mk_token(kind, pos, pos + 1, line);
                assert(token_lexeme_ok(s, t));
                lemma_wf_cons_token(s, pos, line, pos + 1, line, t, scan_from(s, pos + 1, line));
            }
        } else if b == B_SLASH {
            if pos + 1 < s.len() && s[pos + 1] == B_SLASH {
                lemma_skip_comment_wf(s, pos + 2, line);
                lemma_wf_weaken(s, pos, line, pos + 2, line, skip_comment(s, pos + 2, line));
            } else {
                lemma_scan_from_wf(s, pos + 1, line);
                let t = mk_token(TokenType::Slash, pos, pos + 1, line);
                assert(token_lexeme_ok(s, t));
                lemma_wf_cons_token(s, pos, line, pos + 1, line, t, scan_from(s, pos + 1, line));
            }
        } else if b == B_SPACE || b == B_CR || b == B_TAB {
            lemma_scan_from_wf(s, pos + 1, line);
            lemma_wf_weaken(s, pos, line, pos + 1, line, scan_from(s, pos + 1, line));
        } else if b == B_NEWLINE {
            lemma_scan_from_wf(s, pos + 1, line + 1);
            lemma_wf_weaken(s, pos, line, pos + 1, line + 1, scan_from(s, pos + 1, line + 1));
        } else if b == B_QUOTE {
            lemma_scan_string_wf(s, pos, pos + 1, line, line);
        } else if spec_is_digit(b) {
            assert(all_digits(s.subrange(pos, pos + 1)));
            lemma_scan_integer_wf(s, pos, pos + 1, line);
        } else if spec_is_alpha(b) {
            lemma_scan_ident_wf(s, pos, pos + 1, line);
        } else {
            lemma_scan_from_wf(s, pos + 1, line);
            let rest = scan_from(s, pos + 1, line);
            lemma_wf_weaken(s, pos, line, pos + 1, line, rest);
            assert(r.tokens == rest.tokens);
        }
    }
}

proof fn lemma_skip_comment_wf(s: Seq<u8>, pos: int, line: int)
    requires
        0 <= pos,
        pos <= s.len(),
        1 <= line,
    ensures
        scan_wf(s, pos, line, skip_comment(s, pos, line)),
    decreases rem(s, pos), 1int,
{
    if 0 <= pos && pos < s.len() && s[pos] != B_NEWLINE {
        lemma_skip_comment_wf(s, pos + 1, line);
        lemma_wf_weaken(s, pos, line, pos + 1, line, skip_comment(s, pos + 1, line));
    } else {
        lemma_scan_from_wf(s, pos, line);
    }
}

proof fn lemma_scan_string_wf(s: Seq<u8>, start: int, pos: int, line0: int, line: int)
    requires
        0 <= start,
        start + 1 <= pos,
        pos <= s.len(),
        s[start] == B_QUOTE,
        1 <= line0,
        line0 <= line,
    ensures
        scan_wf(s, start, line0, scan_string_from(s, start, pos, line0, line)),
    decreases rem(s, pos), 1int,
{
    if pos >= s.len() {
        lemma_scan_from_wf(s, pos, line);
        lemma_wf_weaken(s, start, line0, pos, line, scan_from(s, pos, line));
        assert(scan_string_from(s, start, pos, line0, line).tokens == scan_from(s, pos, line).tokens);
    } else if s[pos] == B_QUOTE {
        lemma_scan_from_wf(s, pos + 1, line);
        let t = mk_token(TokenType::StringLit, start + 1, pos, line0);
        assert(token_lexeme_ok(s, t));
        lemma_wf_cons_token(s, start, line0, pos + 1, line, t, scan_from(s, pos + 1, line));
    } else if s[pos] == B_NEWLINE {
        lemma_scan_string_wf(s, start, pos + 1, line0, line + 1);
    } else {
        lemma_scan_string_wf(s, start, pos + 1, line0, line);
    }
}

proof fn lemma_scan_integer_wf(s: Seq<u8>, start: int, pos: int, line: int)
    requires
        0 <= start,
        start < pos,
        pos <= s.len(),
        1 <= line,
        all_digits(s.subrange(start, pos)),
    ensures
        scan_wf(s, start, line, scan_integer(s, start, pos, line)),
    decreases rem(s, pos), 1int,
{
    if 0 <= pos && pos < s.len() && spec_is_digit(s[pos]) {
        assert(all_digits(s.subrange(start, pos + 1))) by {
            let l = s.subrange(start, pos + 1);
            assert forall|i: int| 0 <= i < l.len() implies spec_is_digit(#[trigger] l[i]) by {
                if i < pos - start {
                    assert(l[i] == s.subrange(start, pos)[i]);
                } else {
                    assert(l[i] == s[pos]);
                }
            }
        }
        lemma_scan_integer_wf(s, start, pos + 1, line);
    } else if 0 <= pos && pos + 1 < s.len() && s[pos] == B_DOT && spec_is_digit(s[pos + 1]) {
        assert(all_digits(s.subrange(pos + 1, pos + 1)));
        lemma_scan_fraction_wf(s, start, pos, pos + 1, line);
    } else {
        lemma_scan_from_wf(s, pos, line);
        let t = mk_token(TokenType::Number, start, pos, line);
        assert(is_number_lexeme(s.subrange(start, pos)));
        assert(token_lexeme_ok(s, t));
        lemma_wf_cons_token(s, start, line, pos, line, t, scan_from(s, pos, line));
    }
}

proof fn lemma_scan_fraction_wf(s: Seq<u8>, start: int, d: int, pos: int, line: int)
    requires
        0 <= start,
        start < d,
        d < pos,
        pos <= s.len(),
        1 <= line,
        s[d] == B_DOT,
        all_digits(s.subrange(start, d)),
        all_digits(s.subrange(d + 1, pos)),
        pos == d + 1 ==> pos < s.len() && spec_is_digit(s[pos]),
    ensures
        scan_wf(s, start, line, scan_fraction(s, start, pos, line)),
    decreases rem(s, pos), 1int,
{
    if 0 <= pos && pos < s.len() && spec_is_digit(s[pos]) {
        assert(all_digits(s.subrange(d + 1, pos + 1))) by {
            let l = s.subrange(d + 1, pos + 1);
            assert forall|i: int| 0 <= i < l.len() implies spec_is_digit(#[trigger] l[i]) by {
                if i < pos - (d + 1) {
                    assert(l[i] == s.subrange(d + 1, pos)[i]);
                } else {
                    assert(l[i] == s[pos]);
                }
            }
        }
        lemma_scan_fraction_wf(s, start, d, pos + 1, line);
    } else {
        assert(pos > d + 1);
        lemma_scan_from_wf(s, pos, line);
        let t = mk_token(TokenType::Number, start, pos, line);
        let l = s.subrange(start, pos);
        let dd = d - start;
        assert(l[dd] == B_DOT);
        assert(l.subrange(0, dd) =~= s.subrange(start, d));
        assert(l.subrange(dd + 1, l.len() as int) =~= s.subrange(d + 1, pos));
        assert(0 < dd < l.len() - 1);
        assert(is_number_lexeme(l));
        assert(token_lexeme_ok(s, t));
        lemma_wf_cons_token(s, start, line, pos, line, t, scan_from(s, pos, line));
    }
}

proof fn lemma_scan_ident_wf(s: Seq<u8>, start: int, pos: int, line: int)
    requires
        0 <= start,
        start < pos,
        pos <= s.len(),
        1 <= line,
        spec_is_alpha(s[start]),
        forall|i: int| start <= i < pos ==> spec_is_alnum(#[trigger] s[i]),
    ensures
        scan_wf(s, start, line, scan_ident(s, start, pos, line)),
    decreases rem(s, pos), 1int,
{
    if 0 <= pos && pos < s.len() && spec_is_alnum(s[pos]) {
        lemma_scan_ident_wf(s, start, pos + 1, line);
    } else {
        lemma_scan_from_wf(s, pos, line);
        let l = s.subrange(start, pos);
        let t = mk_token(ident_kind(l), start, pos, line);
        assert(l[0] == s[start]);
        assert forall|i: int| 0 <= i < l.len() implies spec_is_alnum(#[trigger] l[i]) by {
            assert(l[i] == s[start + i]);
        }
        assert(is_ident_lexeme(l));
        assert(token_lexeme_ok(s, t));
        lemma_wf_cons_token(s, start, line, pos, line, t, scan_from(s, pos, line));
    }
}

/// Every scan's token sequence ends with exactly one end-of-input token,
/// whose lexeme is empty; no earlier token is the sentinel.
pub proof fn lemma_ends_with_eof(s: Seq<u8>)
    ensures
        spec_tokens(s).len() >= 1,
        spec_tokens(s).last().token_type == TokenType::Eof,
        spec_tokens(s).last().start == s.len(),
        spec_tokens(s).last().end == s.len(),
        forall|i: int|
            0 <= i < spec_tokens(s).len() - 1 ==> (#[trigger] spec_tokens(s)[i]).token_type
                != TokenType::Eof,
{
    lemma_scan_from_wf(s, 0, 1);
}

/// Line numbers are 1-based and monotonically non-decreasing across the
/// token sequence.
pub proof fn lemma_lines_monotone(s: Seq<u8>)
    ensures
        forall|i: int| 0 <= i < spec_tokens(s).len() ==> 1 <= (#[trigger] spec_tokens(s)[i]).line,
        forall|i: int, j: int|
            0 <= i && i <= j && j < spec_tokens(s).len() ==> (#[trigger] spec_tokens(s)[i]).line
                <= (#[trigger] spec_tokens(s)[j]).line,
{
    lemma_scan_from_wf(s, 0, 1);
    assert forall|i: int| 0 <= i < spec_tokens(s).len() implies 1 <= (#[trigger] spec_tokens(
        s,
    )[i]).line by {
        if i < spec_tokens(s).len() - 1 {
            assert(token_ok(s, spec_tokens(s)[i], 0, 1));
        } else {
            assert(spec_tokens(s)[i] == spec_tokens(s).last());
        }
    }
}

/// Every token's recorded span lies within the source, so slicing the
/// source at the recorded boundaries is always possible and reproduces
/// the lexeme; every non-sentinel token other than a string literal has a
/// non-empty lexeme.
pub proof fn lemma_lexeme_spans_valid(s: Seq<u8>)
    ensures
        forall|i: int|
            0 <= i < spec_tokens(s).len() ==> 0 <= (#[trigger] spec_tokens(s)[i]).start
                && spec_tokens(s)[i].start <= spec_tokens(s)[i].end && spec_tokens(s)[i].end
                <= s.len(),
        forall|i: int|
            0 <= i < spec_tokens(s).len() - 1 && (#[trigger] spec_tokens(s)[i]).token_type
                != TokenType::StringLit ==> spec_tokens(s)[i].start < spec_tokens(s)[i].end,
{
    lemma_scan_from_wf(s, 0, 1);
    assert forall|i: int|
        0 <= i < spec_tokens(s).len() - 1 && (#[trigger] spec_tokens(s)[i]).token_type
            != TokenType::StringLit implies spec_tokens(s)[i].start < spec_tokens(s)[i].end by {
        let t = spec_tokens(s)[i];
        assert(token_ok(s, t, 0, 1));
        match t.token_type {
            TokenType::Keyword(k) => {
                assert(spec_keyword_of(s.subrange(t.start, t.end)) == Some(k));
                assert(s.subrange(t.start, t.end).len() >= 2);
            },
            _ => {},
        }
    }
}

/// Every number token's lexeme matches the decimal number grammar, so a
/// numeric parse of it cannot fail; identifier and keyword tokens match
/// the identifier grammar and the keyword table exactly.
pub proof fn lemma_literal_lexemes_well_formed(s: Seq<u8>)
    ensures
        forall|i: int|
            0 <= i < spec_tokens(s).len() - 1 && (#[trigger] spec_tokens(s)[i]).token_type
                == TokenType::Number ==> is_number_lexeme(
                s.subrange(spec_tokens(s)[i].start, spec_tokens(s)[i].end),
            ),
        forall|i: int|
            0 <= i < spec_tokens(s).len() - 1 && (#[trigger] spec_tokens(s)[i]).token_type
                == TokenType::Identifier ==> is_ident_lexeme(
                s.subrange(spec_tokens(s)[i].start, spec_tokens(s)[i].end),
            ) && spec_keyword_of(s.subrange(spec_tokens(s)[i].start, spec_tokens(s)[i].end)) is None,
        forall|i: int|
            0 <= i < spec_tokens(s).len() - 1 && (#[trigger] spec_tokens(s)[i]).token_type
                is Keyword ==> spec_keyword_of(
                s.subrange(spec_tokens(s)[i].start, spec_tokens(s)[i].end),
            ) == Some(spec_tokens(s)[i].token_type->0),
{
    lemma_scan_from_wf(s, 0, 1);
    assert forall|i: int| 0 <= i < spec_tokens(s).len() - 1 implies token_ok(
        s,
        #[trigger] spec_tokens(s)[i],
        0,
        1,
    ) by {}
}

/// Scanning is a function of the source text alone: scanning the same
/// immutable text twice yields structurally equal token and diagnostic
/// sequences.
pub proof fn lemma_scan_deterministic(s1: Seq<u8>, s2: Seq<u8>)
    requires
        s1 == s2,
    ensures
        crate::lexer::spec_scan(s1) == crate::lexer::spec_scan(s2),
{
}

/// A punctuation byte in the sense of the 1:1 correspondence law: the
/// eleven one-byte marks, `/` included.
pub open spec fn is_punct_byte(b: u8) -> bool {
    is_single_punct(b) || b == B_SLASH
}

/// The token kind such a byte scans to.
pub open spec fn punct_kind(b: u8) -> TokenType {
    if b == B_SLASH {
        TokenType::Slash
    } else {
        single_punct_kind(b)
    }
}

/// Input made only of recognized one-byte punctuation marks separated by
/// single spaces: punctuation at even offsets, a space at odd ones.
pub open spec fn spaced_punct_input(s: Seq<u8>) -> bool {
    forall|i: int|
        0 <= i < s.len() ==> if i % 2 == 0 {
            is_punct_byte(#[trigger] s[i])
        } else {
            s[i] == B_SPACE
        }
}

proof fn lemma_punct_sequence_from(s: Seq<u8>, pos: int)
    requires
        0 <= pos,
        pos <= s.len(),
        pos % 2 == 0,
        spaced_punct_input(s),
    ensures
        scan_from(s, pos, 1).tokens.len() == (s.len() - pos + 1) / 2 + 1,
        forall|i: int|
            0 <= i < (s.len() - pos + 1) / 2 ==> (#[trigger] scan_from(s, pos, 1).tokens[i]).token_type
                == punct_kind(s[pos + 2 * i]),
    decreases s.len() - pos,
{
    if pos >= s.len() {
    } else {
        let b = s[pos];
        assert(is_punct_byte(b));
        let rest0 = scan_from(s, pos + 1, 1);
        if b == B_SLASH {
            assert(!(pos + 1 < s.len() && s[pos + 1] == B_SLASH));
            assert(scan_from(s, pos, 1) == with_token(
                mk_token(TokenType::Slash, pos, pos + 1, 1),
                rest0,
            ));
        } else {
            assert(scan_from(s, pos, 1) == with_token(
                mk_token(single_punct_kind(b), pos, pos + 1, 1),
                rest0,
            ));
        }
        if pos + 1 >= s.len() {
            assert(rest0.tokens == seq![eof_token(s, 1)]);
            assert(scan_from(s, pos, 1).tokens.len() == 2);
        } else {
            assert(s[pos + 1] == B_SPACE);
            assert(rest0 == scan_from(s, pos + 2, 1));
            lemma_punct_sequence_from(s, pos + 2);
            assert forall|i: int| 0 <= i < (s.len() - pos + 1) / 2 implies (#[trigger] scan_from(
                s,
                pos,
                1,
            ).tokens[i]).token_type == punct_kind(s[pos + 2 * i]) by {
                if i == 0 {
                    assert(scan_from(s, pos, 1).tokens[0] == if b == B_SLASH {
                        mk_token(TokenType::Slash, pos, pos + 1, 1)
                    } else {
                        mk_token(single_punct_kind(b), pos, pos + 1, 1)
                    });
                } else {
                    assert(scan_from(s, pos, 1).tokens[i] == scan_from(s, pos + 2, 1).tokens[i - 1]);
                    assert(scan_from(s, pos + 2, 1).tokens[i - 1].token_type == punct_kind(
                        s[pos + 2 + 2 * (i - 1)],
                    ));
                    assert(pos + 2 + 2 * (i - 1) == pos + 2 * i);
                }
            }
        }
    }
}

/// For input made only of recognized one-byte punctuation marks separated
/// by single spaces, the emitted token kinds, the sentinel excluded, are
/// in 1:1 order-preserving correspondence with the punctuation bytes.
pub proof fn lemma_punct_sequence(s: Seq<u8>)
    requires
        spaced_punct_input(s),
    ensures
        spec_tokens(s).len() == (s.len() + 1) / 2 + 1,
        forall|i: int|
            0 <= i < (s.len() + 1) / 2 ==> (#[trigger] spec_tokens(s)[i]).token_type == punct_kind(
                s[2 * i],
            ),
{
    lemma_punct_sequence_from(s, 0);
}

} // verus!

