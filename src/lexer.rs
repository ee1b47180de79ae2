use vstd::prelude::*;

use crate::errors::{TokenizationError, TokenizationErrorKind};
use crate::scalar::Scalar;
use crate::token::{is_name_char, is_name_char_exec, is_name_start, is_name_text, punctuation_token, Token};

verus! {

/// Splits one line of source text into tokens, ending with `EndOfFile`.
pub struct Lexer {
    input: String,
    len: usize,
    pos: usize,
    is_eof_returned: bool,
    pub last_error: Option<TokenizationError>,
}

impl Lexer {
    pub closed spec fn wf(&self) -> bool {
        &&& self.len == self.input@.len()
        &&& self.pos <= self.len
        &&& self.is_eof_returned ==> self.pos == self.len
    }

    /// The characters not read yet, and one more while `EndOfFile` is still
    /// to come.
    pub closed spec fn remaining(&self) -> nat {
        (self.len - self.pos) as nat + if self.is_eof_returned {
            0nat
        } else {
            1nat
        }
    }

    /// The text from the read position on is one name and nothing has
    /// been returned past it.
    pub closed spec fn rest_is_name(&self) -> bool {
        &&& self.pos < self.len
        &&& !self.is_eof_returned
        &&& is_name_text(self.input@.subrange(self.pos as int, self.len as int))
    }

    /// The text not read yet.
    pub closed spec fn rest(&self) -> Seq<char> {
        self.input@.subrange(self.pos as int, self.len as int)
    }

    /// All text is read and `EndOfFile` is still to come.
    pub closed spec fn at_end(&self) -> bool {
        self.pos == self.len && !self.is_eof_returned
    }

    pub fn new(input: &str) -> (r: Self)
        ensures
            r.wf(),
            r.rest() == input@,
            is_name_text(input@) ==> r.rest_is_name(),
    {
        let len = input.unicode_len();
        Lexer { input: input.to_owned(), len, pos: 0, is_eof_returned: false, last_error: None }
    }

    fn peek(&self) -> (r: Option<char>)
        requires
            self.wf(),
        ensures
            self.pos < self.len ==> r == Some(self.input@[self.pos as int]),
            self.pos >= self.len ==> r is None,
    {
        if self.pos < self.len {
            Some(self.input.as_str().get_char(self.pos))
        } else {
            None
        }
    }

    /// The character at the read position, as a string.
    fn current_text(&self) -> (r: String)
        requires
            self.wf(),
            self.pos < self.len,
        ensures
            r@ == seq![self.input@[self.pos as int]],
    {
        let s = self.input.as_str().substring_char(self.pos, self.pos + 1);
        proof {
            assert(s@ =~= seq![self.input@[self.pos as int]]);
        }
        s.to_owned()
    }

    fn fail(&self, kind: TokenizationErrorKind, text: String, message: &str) -> (r: TokenizationError)
        ensures
            r.kind == kind,
    {
        TokenizationError::new(kind, Some(text), Some(String::from_str(message)))
    }

    /// Reads a numeric literal: digits, at most one `.`, an optional
    /// exponent `e` followed by a sign or a digit; `_` separates digits and
    /// is dropped.
    #[verifier::loop_isolation(false)]
    fn tokenize_number<T: Scalar>(&mut self) -> (r: Result<Token<T>, TokenizationError>)
        requires
            old(self).wf(),
            old(self).pos < old(self).len,
            '0' <= old(self).input@[old(self).pos as int] <= '9',
        ensures
            final(self).wf(),
            final(self).pos >= old(self).pos,
            final(self).is_eof_returned == old(self).is_eof_returned,
            final(self).len == old(self).len,
            r matches Ok(t) ==> t is NumericLiteral && final(self).pos > old(self).pos,
    {
        let mut res = self.current_text();
        self.pos = self.pos + 1;
        let mut is_frac = false;
        let mut is_expo = false;
        loop
            invariant
                self.wf(),
                self.pos > old(self).pos,
                self.is_eof_returned == old(self).is_eof_returned,
                self.len == old(self).len,
                self.input@ == old(self).input@,
            decreases self.len - self.pos,
        {
            let ghost p0 = self.pos;
            let next = match self.peek() {
                Some(c) => c,
                None => break,
            };
            if '0' <= next && next <= '9' {
                res.append(self.current_text().as_str());
                self.pos = self.pos + 1;
            } else if next == '.' {
                res.append(self.current_text().as_str());
                self.pos = self.pos + 1;
                if is_expo {
                    return Err(
                        self.fail(
                            TokenizationErrorKind::UnexpectedChar('.'),
                            res,
                            "Could not parse a numeric literal with a floating point number after the 'e' in a scientific notation.",
                        ),
                    );
                }
                if is_frac {
                    return Err(
                        self.fail(
                            TokenizationErrorKind::UnexpectedChar('.'),
                            res,
                            "Could not parse a numeric literal with more than one dot.",
                        ),
                    );
                }
                is_frac = true;
            } else if next == 'e' || next == 'E' {
                res.append(self.current_text().as_str());
                self.pos = self.pos + 1;
                if is_expo {
                    return Err(
                        self.fail(
                            TokenizationErrorKind::UnexpectedChar('e'),
                            res,
                            "Could not parse a numeric literal with more than one 'e' suffix,\n(Invalid scientific notation :)",
                        ),
                    );
                }
                is_expo = true;
                is_frac = true;
                while self.peek() == Some('_')
                    invariant
                        self.wf(),
                        self.pos > old(self).pos,
                        self.is_eof_returned == old(self).is_eof_returned,
                        self.len == old(self).len,
                        self.input@ == old(self).input@,
                        self.pos > p0,
                    decreases self.len - self.pos,
                {
                    self.pos = self.pos + 1;
                }
                let sign = self.peek();
                let complete = match sign {
                    Some(c) => c == '+' || c == '-' || ('0' <= c && c <= '9'),
                    None => false,
                };
                if complete {
                    res.append(self.current_text().as_str());
                    self.pos = self.pos + 1;
                } else {
                    if self.pos < self.len {
                        self.pos = self.pos + 1;
                    }
                    return Err(
                        self.fail(
                            TokenizationErrorKind::UnexpectedChar('e'),
                            res,
                            "A scientific notated number is not complete.",
                        ),
                    );
                }
            } else if ('a' <= next && next <= 'z') || ('A' <= next && next <= 'Z') {
                let letter = self.current_text();
                res.append(letter.as_str());
                self.pos = self.pos + 1;
                return Err(
                    self.fail(
                        TokenizationErrorKind::UnspportedSyntax(letter),
                        res,
                        "Suffixes other than 'e' are not supported.",
                    ),
                );
            } else if next == '_' {
                self.pos = self.pos + 1;
            } else {
                break;
            }
        }
        match T::parse_literal(res.as_str()) {
            Ok(n) => Ok(Token::NumericLiteral(n)),
            Err(message) => Err(TokenizationError::new(TokenizationErrorKind::NotANumber, Some(res), Some(message))),
        }
    }
}

} // verus!

verus! {

impl Lexer {
    /// The next token: `EndOfFile` once the text is used up, then `None`.
    /// Spaces are skipped; `\n` and `\r\n` end a line. A character that no
    /// token starts with is an error, kept in `last_error`, and is not
    /// consumed.
    pub fn next_token<T: Scalar>(&mut self) -> (r: Option<Result<Token<T>, TokenizationError>>)
        requires
            old(self).wf(),
        ensures
            final(self).wf(),
            r is None <==> old(self).remaining() == 0,
            r is None ==> final(self).remaining() == 0,
            r matches Some(Ok(_)) ==> final(self).remaining() < old(self).remaining(),
            r matches Some(Ok(t)) ==> (t is EndOfFile <==> final(self).remaining() == 0),
            r matches Some(Err(_)) ==> final(self).remaining() <= old(self).remaining(),
            old(self).rest_is_name() ==> (r matches Some(Ok(Token::Identifier(name))) && name@ == old(self).rest()
                && final(self).at_end()),
            old(self).at_end() ==> (r matches Some(Ok(Token::EndOfFile)) && final(self).remaining() == 0),
    {
        proof {
            if self.rest_is_name() {
                assert(self.rest()[0] == self.input@[self.pos as int]);
                assert(is_name_start(self.input@[self.pos as int]));
            }
        }
        while self.peek() == Some(' ')
            invariant
                self.wf(),
                self.pos >= old(self).pos,
                self.len == old(self).len,
                self.input@ == old(self).input@,
                self.is_eof_returned == old(self).is_eof_returned,
                old(self).pos < self.pos ==> self.pos <= self.len,
                old(self).rest_is_name() ==> self.pos == old(self).pos && is_name_start(self.input@[self.pos as int])
                    && self.pos < self.len,
            decreases self.len - self.pos,
        {
            self.pos = self.pos + 1;
        }
        let c = match self.peek() {
            None => {
                if self.is_eof_returned {
                    return None;
                } else {
                    self.is_eof_returned = true;
                    return Some(Ok(Token::EndOfFile));
                }
            },
            Some(c) => c,
        };
        if punctuation_token::<T>(c).is_some() {
            let text = self.current_text();
            self.pos = self.pos + 1;
            return Some(Token::from_text(text.as_str()));
        }
        if '0' <= c && c <= '9' {
            return Some(self.tokenize_number());
        }
        if ('a' <= c && c <= 'z') || ('A' <= c && c <= 'Z') || c == '_' {
            let start = self.pos;
            self.pos = self.pos + 1;
            proof {
                if old(self).rest_is_name() {
                    assert forall|k: int| old(self).pos <= k < self.len implies is_name_char(
                        #[trigger] self.input@[k],
                    ) by {
                        assert(old(self).rest()[k - old(self).pos] == self.input@[k]);
                    }
                }
            }
            while self.pos < self.len && is_name_char_exec(self.input.as_str().get_char(self.pos))
                invariant
                    self.wf(),
                    start < self.pos,
                    self.len == old(self).len,
                    self.input@ == old(self).input@,
                    self.is_eof_returned == old(self).is_eof_returned,
                    start >= old(self).pos,
                    old(self).rest_is_name() ==> start == old(self).pos && forall|k: int|
                        old(self).pos <= k < self.len ==> is_name_char(#[trigger] self.input@[k]),
                decreases self.len - self.pos,
            {
                self.pos = self.pos + 1;
            }
            let name = self.input.as_str().substring_char(start, self.pos);
            proof {
                if old(self).rest_is_name() {
                    assert(self.pos == self.len);
                    assert(name@ =~= old(self).rest());
                    assert forall|k: int| 0 <= k < name@.len() implies is_name_char(#[trigger] name@[k]) by {
                        assert(name@[k] == self.input@[start + k]);
                    }
                }
            }
            return Some(Token::from_text(name));
        }
        if c == '\n' {
            self.pos = self.pos + 1;
            return Some(Ok(Token::EndOfLine));
        }
        if c == '\r' {
            self.pos = self.pos + 1;
            if self.peek() == Some('\n') {
                self.pos = self.pos + 1;
            }
            return Some(Ok(Token::EndOfLine));
        }
        let e = TokenizationError::new(TokenizationErrorKind::UnexpectedChar(c), None, None);
        self.last_error = Some(e.clone());
        Some(Err(e))
    }
}

impl Lexer {
    /// All tokens of the text, the last one `EndOfFile`; the first error
    /// stops the scan.
    pub fn tokenize<T: Scalar>(&mut self) -> (r: Result<Vec<Token<T>>, TokenizationError>)
        requires
            old(self).wf(),
        ensures
            final(self).wf(),
            r matches Ok(tokens) ==> (old(self).remaining() > 0 ==> tokens@.len() > 0 && tokens@.last() is EndOfFile),
            old(self).rest_is_name() ==> (r matches Ok(tokens) && tokens@.len() == 2 && (tokens@[0] matches Token::Identifier(
                name,
            ) && name@ == old(self).rest()) && tokens@[1] is EndOfFile),
    {
        let mut tokens: Vec<Token<T>> = Vec::new();
        loop
            invariant
                self.wf(),
                self.remaining() == 0 && old(self).remaining() > 0 ==> tokens@.len() > 0 && tokens@.last() is EndOfFile,
                old(self).rest_is_name() ==> {
                    ||| tokens@.len() == 0 && self.rest_is_name() && self.rest() == old(self).rest()
                    ||| tokens@.len() == 1 && (tokens@[0] matches Token::Identifier(name) && name@ == old(self).rest())
                        && self.at_end()
                    ||| tokens@.len() == 2 && (tokens@[0] matches Token::Identifier(name) && name@ == old(self).rest())
                        && tokens@[1] is EndOfFile && self.remaining() == 0
                },
            ensures
                self.wf(),
                old(self).remaining() > 0 ==> tokens@.len() > 0 && tokens@.last() is EndOfFile,
                old(self).rest_is_name() ==> tokens@.len() == 2 && (tokens@[0] matches Token::Identifier(name) && name@
                    == old(self).rest()) && tokens@[1] is EndOfFile,
            decreases self.remaining(),
        {
            match self.next_token() {
                None => break,
                Some(Ok(t)) => tokens.push(t),
                Some(Err(e)) => {
                    return Err(e);
                },
            }
        }
        Ok(tokens)
    }
}

} // verus!
