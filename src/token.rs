use vstd::prelude::*;

use crate::errors::{TokenizationError, TokenizationErrorKind};
use crate::scalar::Scalar;

verus! {

/// A lexical unit of the language; `T` is the type of numeric literals.
#[derive(Debug, Clone, PartialEq)]
pub enum Token<T> {
    Plus,
    Minus,
    Asterisk,
    Slash,
    Equal,
    OpenParen,
    CloseParen,
    OpenBracket,
    CloseBracket,
    OpenCurly,
    CloseCurly,
    NumericLiteral(T),
    Identifier(String),
    Comma,
    SemiColon,
    EndOfLine,
    EndOfFile,
}

impl<T> Token<T> {
    /// The name under which a token without payload is reported.
    pub open spec fn label(&self) -> Seq<char> {
        match self {
            Token::Plus => "Add"@,
            Token::Minus => "Minus"@,
            Token::Asterisk => "Asterisk"@,
            Token::Slash => "Slash"@,
            Token::Equal => "Equal"@,
            Token::OpenParen => "OpenParen"@,
            Token::CloseParen => "CloseParen"@,
            Token::OpenBracket => "OpenBracket"@,
            Token::CloseBracket => "CloseBracket"@,
            Token::OpenCurly => "OpenCurly"@,
            Token::CloseCurly => "CloseCurly"@,
            Token::NumericLiteral(_) => "NumericLiteral"@,
            Token::Identifier(_) => "Identifier"@,
            Token::Comma => "Comma"@,
            Token::SemiColon => "SemiColon"@,
            Token::EndOfLine => "EndOfLine"@,
            Token::EndOfFile => "EndOfFile"@,
        }
    }
}

/// `s` is how `t` is reported: its label, followed for a numeric literal by
/// its text and for a non-empty identifier by `": "` and its name.
pub open spec fn describes<T>(t: Token<T>, s: Seq<char>) -> bool {
    match t {
        Token::NumericLiteral(_) => s.len() >= t.label().len() && s.subrange(0, t.label().len() as int) == t.label(),
        Token::Identifier(name) => if name@.len() == 0 {
            s == t.label()
        } else {
            s == t.label() + ": "@ + name@
        },
        _ => s == t.label(),
    }
}

impl<T: Scalar> Token<T> {
    /// A copy of the token.
    pub fn duplicate(&self) -> (r: Self)
        ensures
            r == *self,
    {
        match self {
            Token::Plus => Token::Plus,
            Token::Minus => Token::Minus,
            Token::Asterisk => Token::Asterisk,
            Token::Slash => Token::Slash,
            Token::Equal => Token::Equal,
            Token::OpenParen => Token::OpenParen,
            Token::CloseParen => Token::CloseParen,
            Token::OpenBracket => Token::OpenBracket,
            Token::CloseBracket => Token::CloseBracket,
            Token::OpenCurly => Token::OpenCurly,
            Token::CloseCurly => Token::CloseCurly,
            Token::NumericLiteral(n) => Token::NumericLiteral(*n),
            Token::Identifier(name) => Token::Identifier(name.clone()),
            Token::Comma => Token::Comma,
            Token::SemiColon => Token::SemiColon,
            Token::EndOfLine => Token::EndOfLine,
            Token::EndOfFile => Token::EndOfFile,
        }
    }

    /// A short description of the token for error messages: its label, and
    /// for a literal or a non-empty identifier also its text.
    pub fn stringify(&self) -> (r: String)
        ensures
            describes(*self, r@),
    {
        match self {
            Token::Plus => String::from_str("Add"),
            Token::Minus => String::from_str("Minus"),
            Token::Asterisk => String::from_str("Asterisk"),
            Token::Slash => String::from_str("Slash"),
            Token::Equal => String::from_str("Equal"),
            Token::OpenParen => String::from_str("OpenParen"),
            Token::CloseParen => String::from_str("CloseParen"),
            Token::OpenBracket => String::from_str("OpenBracket"),
            Token::CloseBracket => String::from_str("CloseBracket"),
            Token::OpenCurly => String::from_str("OpenCurly"),
            Token::CloseCurly => String::from_str("CloseCurly"),
            Token::NumericLiteral(n) => {
                let head = String::from_str("NumericLiteral").concat(": ");
                let text = n.render();
                let r = head.concat(text.as_str());
                proof {
                    reveal_strlit("NumericLiteral");
                    reveal_strlit(": ");
                    assert(r@.subrange(0, self.label().len() as int) =~= self.label());
                }
                r
            },
            Token::Identifier(name) => {
                if name.as_str().unicode_len() == 0 {
                    String::from_str("Identifier")
                } else {
                    String::from_str("Identifier").concat(": ").concat(name.as_str())
                }
            },
            Token::Comma => String::from_str("Comma"),
            Token::SemiColon => String::from_str("SemiColon"),
            Token::EndOfLine => String::from_str("EndOfLine"),
            Token::EndOfFile => String::from_str("EndOfFile"),
        }
    }
}

/// Whether `c` may appear in an identifier after its first character.
pub open spec fn is_name_char(c: char) -> bool {
    ('a' <= c <= 'z') || ('A' <= c <= 'Z') || ('0' <= c <= '9') || c == '_'
}

pub(crate) fn is_name_char_exec(c: char) -> (r: bool)
    ensures
        r == is_name_char(c),
{
    ('a' <= c && c <= 'z') || ('A' <= c && c <= 'Z') || ('0' <= c && c <= '9') || c == '_'
}

/// The token that a single punctuation character spells.
pub open spec fn punctuation<T>(c: char) -> Option<Token<T>> {
    if c == '+' {
        Some(Token::Plus)
    } else if c == '-' {
        Some(Token::Minus)
    } else if c == '*' {
        Some(Token::Asterisk)
    } else if c == '/' {
        Some(Token::Slash)
    } else if c == '=' {
        Some(Token::Equal)
    } else if c == '(' {
        Some(Token::OpenParen)
    } else if c == ')' {
        Some(Token::CloseParen)
    } else if c == '[' {
        Some(Token::OpenBracket)
    } else if c == ']' {
        Some(Token::CloseBracket)
    } else if c == '{' {
        Some(Token::OpenCurly)
    } else if c == '}' {
        Some(Token::CloseCurly)
    } else if c == ',' {
        Some(Token::Comma)
    } else if c == ';' {
        Some(Token::SemiColon)
    } else {
        None
    }
}

pub(crate) fn punctuation_token<T>(c: char) -> (r: Option<Token<T>>)
    ensures
        r == punctuation::<T>(c),
{
    if c == '+' {
        Some(Token::Plus)
    } else if c == '-' {
        Some(Token::Minus)
    } else if c == '*' {
        Some(Token::Asterisk)
    } else if c == '/' {
        Some(Token::Slash)
    } else if c == '=' {
        Some(Token::Equal)
    } else if c == '(' {
        Some(Token::OpenParen)
    } else if c == ')' {
        Some(Token::CloseParen)
    } else if c == '[' {
        Some(Token::OpenBracket)
    } else if c == ']' {
        Some(Token::CloseBracket)
    } else if c == '{' {
        Some(Token::OpenCurly)
    } else if c == '}' {
        Some(Token::CloseCurly)
    } else if c == ',' {
        Some(Token::Comma)
    } else if c == ';' {
        Some(Token::SemiColon)
    } else {
        None
    }
}

/// `s` is a name: a letter or `_` followed by letters, digits and `_`.
pub open spec fn is_name_text(s: Seq<char>) -> bool {
    s.len() > 0 && is_name_start(s[0]) && forall|k: int| 0 <= k < s.len() ==> is_name_char(#[trigger] s[k])
}

/// Whether `c` may start an identifier.
pub open spec fn is_name_start(c: char) -> bool {
    ('a' <= c <= 'z') || ('A' <= c <= 'Z') || c == '_'
}

impl<T: Scalar> Token<T> {
    /// The token spelled by `input`: a punctuation character, a numeric
    /// literal (starting with a digit) or an identifier (a letter or `_`
    /// followed by letters, digits and `_`).
    pub fn from_text(input: &str) -> (r: Result<Token<T>, TokenizationError>)
        ensures
            input@.len() == 1 && punctuation::<T>(input@[0]) is Some ==> r == Ok::<Token<T>, TokenizationError>(
                punctuation::<T>(input@[0])->0,
            ),
            input@.len() == 0 ==> (r matches Err(e) && e.kind == TokenizationErrorKind::EmptyString),
            input@.len() > 0 && '0' <= input@[0] <= '9' ==> match r {
                Ok(t) => t is NumericLiteral,
                Err(e) => e.kind == TokenizationErrorKind::NotANumber,
            },
            input@.len() > 0 && is_name_start(input@[0]) ==> match r {
                Ok(t) => t matches Token::Identifier(name) && name@ == input@,
                Err(e) => exists|i: int|
                    0 <= i < input@.len() && !is_name_char(#[trigger] input@[i]) && e.kind
                        == TokenizationErrorKind::UnexpectedChar(input@[i]),
            },
            input@.len() > 0 && is_name_start(input@[0]) ==> (r is Ok <==> forall|i: int|
                0 <= i < input@.len() ==> is_name_char(#[trigger] input@[i])),
            input@.len() > 0 && punctuation::<T>(input@[0]) is None && !('0' <= input@[0] <= '9')
                && !is_name_start(input@[0]) ==> (r matches Err(e) && e.kind
                == TokenizationErrorKind::UnexpectedChar(input@[0])),
            input@.len() > 1 && !('0' <= input@[0] <= '9') && !is_name_start(input@[0]) ==> (r matches Err(e)
                && e.kind == TokenizationErrorKind::UnexpectedChar(input@[0])),
    {
        let n = input.unicode_len();
        if n == 1 {
            if let Some(t) = punctuation_token::<T>(input.get_char(0)) {
                return Ok(t);
            }
        }
        if n == 0 {
            return Err(TokenizationError::new(TokenizationErrorKind::EmptyString, Some(input.to_owned()), None));
        }
        let first = input.get_char(0);
        if '0' <= first && first <= '9' {
            return match T::parse_literal(input) {
                Ok(value) => Ok(Token::NumericLiteral(value)),
                Err(message) => Err(
                    TokenizationError::new(TokenizationErrorKind::NotANumber, Some(input.to_owned()), Some(message)),
                ),
            };
        }
        if ('a' <= first && first <= 'z') || ('A' <= first && first <= 'Z') || first == '_' {
            let mut i: usize = 0;
            while i < n
                invariant
                    n == input@.len(),
                    n > 0,
                    first == input@[0],
                    is_name_start(first),
                    i <= n,
                    forall|k: int| 0 <= k < i ==> is_name_char(#[trigger] input@[k]),
                decreases n - i,
            {
                let c = input.get_char(i);
                if !is_name_char_exec(c) {
                    return Err(
                        TokenizationError::new(TokenizationErrorKind::UnexpectedChar(c), Some(input.to_owned()), None),
                    );
                }
                i = i + 1;
            }
            return Ok(Token::Identifier(input.to_owned()));
        }
        Err(TokenizationError::new(TokenizationErrorKind::UnexpectedChar(first), Some(input.to_owned()), None))
    }
}

} // verus!
