//! Data carried between the cursor and the scanner: positioned characters,
//! tokens, and scan errors, together with their mathematical models.

use vstd::prelude::*;

verus! {

/// One source character together with its 1-indexed line number and
/// 1-indexed column number within that line.
#[derive(Clone, Copy, Debug, PartialEq, Eq)]
pub struct Char {
    pub line_num: usize,
    pub row_num: usize,
    pub c: char,
}

/// The keywords of the language. An exact match on one of them takes
/// priority over classification as an identifier.
#[derive(Clone, Copy, Debug, PartialEq, Eq)]
pub enum ReservedKind {
    Type,
    Enum,
    Logic,
}

/// The classification of one token.
///
/// A bit literal is a quoted run of `_` (zero bit) and `@` (one bit)
/// characters; `bitwidth` counts the bit characters and `value` is the bit
/// string read as a binary integer, most-significant bit first. Both fields
/// hold the low 32 bits of those counts, so the construction is total.
#[derive(Clone, Debug, PartialEq, Eq)]
pub enum TokenKind {
    /// A line comment: `//` up to, and exclusive of, the line terminator.
    Comment,
    /// A maximal run of space, tab, carriage return and line feed.
    Whitespace,
    /// An ASCII-alphabetic lead continued by alphanumerics or `_`.
    Ident(String),
    /// An exact match of one of the reserved keywords.
    Reserved(ReservedKind),
    /// A maximal run of decimal digits, read as an unsigned 32-bit integer.
    Number(u32),
    /// A quoted bit pattern.
    Literal { bitwidth: u32, value: u32 },
    /// `;`
    Semi,
    /// `,`
    Comma,
    /// `.`
    Dot,
    /// `(`
    OpenParen,
    /// `)`
    CloseParen,
    /// `{`
    OpenBrace,
    /// `}`
    CloseBrace,
    /// `[`
    OpenBracket,
    /// `]`
    CloseBracket,
    /// `@`
    At,
    /// `#`
    Pound,
    /// `~`
    Tilde,
    /// `?`
    Question,
    /// `:`
    Colon,
    /// `$`
    Dollar,
    /// `=`
    Eq,
    /// `!`
    Bang,
    /// `<`
    Lt,
    /// `>`
    Gt,
    /// `-`
    Minus,
    /// `&`
    And,
    /// `|`
    Or,
    /// `+`
    Plus,
    /// `*`
    Star,
    /// `/`
    Slash,
    /// `^`
    Caret,
    /// `%`
    Percent,
}

/// One scanned token: the position of its first character and its kind.
#[derive(Clone, Debug, PartialEq, Eq)]
pub struct Token {
    pub line_num: usize,
    pub row_num: usize,
    pub token_kind: TokenKind,
}

/// The ways a single token-scan attempt can fail.
#[derive(Clone, Copy, Debug, PartialEq, Eq)]
pub enum ErrorKind {
    /// A maximal decimal digit run does not fit an unsigned 32-bit integer.
    NumberOverflow,
    /// A `?` don't-care marker appears inside a bit literal's body.
    UnsupportedLiteralBit,
    /// The leading character of a would-be token matches no recognized class.
    UnrecognizedCharacter,
}

/// A scan failure: the failing character's position and the failure kind.
#[derive(Clone, Copy, Debug, PartialEq, Eq)]
pub struct ScanError {
    pub line_num: usize,
    pub row_num: usize,
    pub kind: ErrorKind,
}

/// The mathematical model of a token kind. Identifier text is a character
/// sequence; the fixed one-character punctuators collapse into `Punct`
/// carrying the matched character.
pub enum SpecKind {
    Comment,
    Whitespace,
    Ident(Seq<char>),
    Reserved(ReservedKind),
    Number(u32),
    Literal { bitwidth: u32, value: u32 },
    Punct(char),
}

/// The mathematical model of a token: 1-indexed position and kind.
pub struct SpecToken {
    pub line: nat,
    pub col: nat,
    pub kind: SpecKind,
}

impl View for TokenKind {
    type V = SpecKind;

    open spec fn view(&self) -> SpecKind {
        match self {
            TokenKind::Comment => SpecKind::Comment,
            TokenKind::Whitespace => SpecKind::Whitespace,
            TokenKind::Ident(s) => SpecKind::Ident(s@),
            TokenKind::Reserved(k) => SpecKind::Reserved(*k),
            TokenKind::Number(v) => SpecKind::Number(*v),
            TokenKind::Literal { bitwidth, value } => SpecKind::Literal {
                bitwidth: *bitwidth,
                value: *value,
            },
            TokenKind::Semi => SpecKind::Punct(';'),
            TokenKind::Comma => SpecKind::Punct(','),
            TokenKind::Dot => SpecKind::Punct('.'),
            TokenKind::OpenParen => SpecKind::Punct('('),
            TokenKind::CloseParen => SpecKind::Punct(')'),
            TokenKind::OpenBrace => SpecKind::Punct('{'),
            TokenKind::CloseBrace => SpecKind::Punct('}'),
            TokenKind::OpenBracket => SpecKind::Punct('['),
            TokenKind::CloseBracket => SpecKind::Punct(']'),
            TokenKind::At => SpecKind::Punct('@'),
            TokenKind::Pound => SpecKind::Punct('#'),
            TokenKind::Tilde => SpecKind::Punct('~'),
            TokenKind::Question => SpecKind::Punct('?'),
            TokenKind::Colon => SpecKind::Punct(':'),
            TokenKind::Dollar => SpecKind::Punct('$'),
            TokenKind::Eq => SpecKind::Punct('='),
            TokenKind::Bang => SpecKind::Punct('!'),
            TokenKind::Lt => SpecKind::Punct('<'),
            TokenKind::Gt => SpecKind::Punct('>'),
            TokenKind::Minus => SpecKind::Punct('-'),
            TokenKind::And => SpecKind::Punct('&'),
            TokenKind::Or => SpecKind::Punct('|'),
            TokenKind::Plus => SpecKind::Punct('+'),
            TokenKind::Star => SpecKind::Punct('*'),
            TokenKind::Slash => SpecKind::Punct('/'),
            TokenKind::Caret => SpecKind::Punct('^'),
            TokenKind::Percent => SpecKind::Punct('%'),
        }
    }
}

impl View for Token {
    type V = SpecToken;

    open spec fn view(&self) -> SpecToken {
        SpecToken {
            line: self.line_num as nat,
            col: self.row_num as nat,
            kind: self.token_kind@,
        }
    }
}

} // verus!
