//! The token model: token kinds, spans, tokens, and the reserved-word table.

use vstd::prelude::*;

verus! {

/// The fixed, case-sensitive set of reserved words.
#[derive(Clone, Copy, PartialEq, Eq, Structural, Debug)]
pub enum Keyword {
    And,
    Class,
    Else,
    False,
    Fun,
    For,
    If,
    Nil,
    Or,
    Print,
    Return,
    Super,
    This,
    True,
    Var,
    While,
}

/// The closed set of token kinds. Literal-carrying kinds (identifiers,
/// strings, numbers) carry no payload here: their text is the token's
/// lexeme span, and a number's value is the decimal value of that text.
#[derive(Clone, Copy, PartialEq, Eq, Structural, Debug)]
pub enum TokenType {
    LeftParen,
    RightParen,
    LeftBrace,
    RightBrace,
    Comma,
    Dot,
    Minus,
    Plus,
    Semicolon,
    Slash,
    Star,
    Bang,
    BangEqual,
    Equal,
    EqualEqual,
    Greater,
    GreaterEqual,
    Less,
    LessEqual,
    Identifier,
    StringLit,
    Number,
    Keyword(Keyword),
    Eof,
}

/// A half-open byte range `start..end` into the scanned source buffer.
#[derive(Clone, Copy, PartialEq, Eq, Structural, Debug)]
pub struct Span {
    pub start: usize,
    pub end: usize,
}

/// A classified unit of source text: its kind, its lexeme as a span into
/// the original buffer, and the 1-based line where it begins.
#[derive(Clone, Copy, PartialEq, Eq, Structural, Debug)]
pub struct Token {
    pub token_type: TokenType,
    pub lexeme: Span,
    pub line: usize,
}

/// The mathematical image of a [`Token`], with unbounded integer fields.
pub struct SpecToken {
    pub token_type: TokenType,
    pub start: int,
    pub end: int,
    pub line: int,
}

impl View for Token {
    type V = SpecToken;

    open spec fn view(&self) -> SpecToken {
        SpecToken {
            token_type: self.token_type,
            start: self.lexeme.start as int,
            end: self.lexeme.end as int,
            line: self.line as int,
        }
    }
}

/// Which keyword, if any, a lexeme spells, byte for byte.
pub open spec fn spec_keyword_of(s: Seq<u8>) -> Option<Keyword> {
    if s.len() == 3 && s[0] == 97 && s[1] == 110 && s[2] == 100 {
        Some(Keyword::And)
    } else if s.len() == 5 && s[0] == 99 && s[1] == 108 && s[2] == 97 && s[3] == 115 && s[4] == 115 {
        Some(Keyword::Class)
    } else if s.len() == 4 && s[0] == 101 && s[1] == 108 && s[2] == 115 && s[3] == 101 {
        Some(Keyword::Else)
    } else if s.len() == 5 && s[0] == 102 && s[1] == 97 && s[2] == 108 && s[3] == 115 && s[4] == 101 {
        Some(Keyword::False)
    } else if s.len() == 3 && s[0] == 102 && s[1] == 117 && s[2] == 110 {
        Some(Keyword::Fun)
    } else if s.len() == 3 && s[0] == 102 && s[1] == 111 && s[2] == 114 {
        Some(Keyword::For)
    } else if s.len() == 2 && s[0] == 105 && s[1] == 102 {
        Some(Keyword::If)
    } else if s.len() == 3 && s[0] == 110 && s[1] == 105 && s[2] == 108 {
        Some(Keyword::Nil)
    } else if s.len() == 2 && s[0] == 111 && s[1] == 114 {
        Some(Keyword::Or)
    } else if s.len() == 5 && s[0] == 112 && s[1] == 114 && s[2] == 105 && s[3] == 110 && s[4] == 116 {
        Some(Keyword::Print)
    } else if s.len() == 6 && s[0] == 114 && s[1] == 101 && s[2] == 116 && s[3] == 117 && s[4] == 114
        && s[5] == 110 {
        Some(Keyword::Return)
    } else if s.len() == 5 && s[0] == 115 && s[1] == 117 && s[2] == 112 && s[3] == 101 && s[4] == 114 {
        Some(Keyword::Super)
    } else if s.len() == 4 && s[0] == 116 && s[1] == 104 && s[2] == 105 && s[3] == 115 {
        Some(Keyword::This)
    } else if s.len() == 4 && s[0] == 116 && s[1] == 114 && s[2] == 117 && s[3] == 101 {
        Some(Keyword::True)
    } else if s.len() == 3 && s[0] == 118 && s[1] == 97 && s[2] == 114 {
        Some(Keyword::Var)
    } else if s.len() == 5 && s[0] == 119 && s[1] == 104 && s[2] == 105 && s[3] == 108 && s[4] == 101 {
        Some(Keyword::While)
    } else {
        None
    }
}

impl Keyword {
    /// Looks a lexeme up in the reserved-word table: `Some` exactly when
    /// the bytes spell one of the sixteen keywords.
    pub fn from_str(s: &[u8]) -> (r: Option<Keyword>)
        ensures
            r == spec_keyword_of(s@),
    {
        let n = s.len();
        if n == 3 && s[0] == 97 && s[1] == 110 && s[2] == 100 {
            Some(Keyword::And)
        } else if n == 5 && s[0] == 99 && s[1] == 108 && s[2] == 97 && s[3] == 115
            && s[4] == 115 {
            Some(Keyword::Class)
        } else if n == 4 && s[0] == 101 && s[1] == 108 && s[2] == 115 && s[3] == 101 {
            Some(Keyword::Else)
        } else if n == 5 && s[0] == 102 && s[1] == 97 && s[2] == 108 && s[3] == 115
            && s[4] == 101 {
            Some(Keyword::False)
        } else if n == 3 && s[0] == 102 && s[1] == 117 && s[2] == 110 {
            Some(Keyword::Fun)
        } else if n == 3 && s[0] == 102 && s[1] == 111 && s[2] == 114 {
            Some(Keyword::For)
        } else if n == 2 && s[0] == 105 && s[1] == 102 {
            Some(Keyword::If)
        } else if n == 3 && s[0] == 110 && s[1] == 105 && s[2] == 108 {
            Some(Keyword::Nil)
        } else if n == 2 && s[0] == 111 && s[1] == 114 {
            Some(Keyword::Or)
        } else if n == 5 && s[0] == 112 && s[1] == 114 && s[2] == 105 && s[3] == 110
            && s[4] == 116 {
            Some(Keyword::Print)
        } else if n == 6 && s[0] == 114 && s[1] == 101 && s[2] == 116 && s[3] == 117
            && s[4] == 114 && s[5] == 110 {
            Some(Keyword::Return)
        } else if n == 5 && s[0] == 115 && s[1] == 117 && s[2] == 112 && s[3] == 101
            && s[4] == 114 {
            Some(Keyword::Super)
        } else if n == 4 && s[0] == 116 && s[1] == 104 && s[2] == 105 && s[3] == 115 {
            Some(Keyword::This)
        } else if n == 4 && s[0] == 116 && s[1] == 114 && s[2] == 117 && s[3] == 101 {
            Some(Keyword::True)
        } else if n == 3 && s[0] == 118 && s[1] == 97 && s[2] == 114 {
            Some(Keyword::Var)
        } else if n == 5 && s[0] == 119 && s[1] == 104 && s[2] == 105 && s[3] == 108
            && s[4] == 101 {
            Some(Keyword::While)
        } else {
            None
        }
    }
}

impl Token {
    /// Builds a token from its three fields.
    pub fn new(token_type: TokenType, lexeme: Span, line: usize) -> (r: Token)
        ensures
            r.token_type == token_type,
            r.lexeme == lexeme,
            r.line == line,
    {
        Token { token_type, lexeme, line }
    }
}

/// Copies the lexeme of a token out of the source buffer: exactly the
/// bytes of the recorded span, in order.
pub fn lexeme_of(source: &Vec<u8>, t: &Token) -> (r: Vec<u8>)
    requires
        t.lexeme.start <= t.lexeme.end,
        t.lexeme.end <= source@.len(),
    ensures
        r@ == source@.subrange(t.lexeme.start as int, t.lexeme.end as int),
{
    let mut r: Vec<u8> = Vec::new();
    let mut i: usize = t.lexeme.start;
    while i < t.lexeme.end
        invariant
            t.lexeme.start <= i <= t.lexeme.end,
            t.lexeme.end <= source@.len(),
            r@ == source@.subrange(t.lexeme.start as int, i as int),
        decreases t.lexeme.end - i,
    {
        r.push(source[i]);
        i = i + 1;
        proof {
            assert(r@ =~= source@.subrange(t.lexeme.start as int, i as int));
        }
    }
    r
}

} // verus!
