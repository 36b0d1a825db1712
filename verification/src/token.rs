//! The lexer: scans one raw line into low-level tokens.
//!
//! A token is a single-character operator, a run of whitespace, a run of
//! unquoted text, or the body of a single-quoted string. Text-bearing tokens
//! carry character offsets into the source line rather than copies of it.

use vstd::prelude::*;

verus! {

use vstd::string::StrSliceExecFns;

/// A lexical failure, or the end-of-input sentinel `Eos`, which callers
/// treat as normal termination rather than as a hard error.
#[derive(Debug, PartialEq, Eq)]
pub enum Error {
    /// A single-quoted string with no closing quote.
    UnterminatedQuote,
    /// A backslash with no character after it to escape.
    DanglingEscape,
    /// No characters are left.
    Eos,
}

/// One token. `Spaces`, `String` and `QuotedString` hold the half-open
/// range of character offsets of their text in the source line; for a
/// `QuotedString` the range covers the body only, not the quotes.
#[derive(Debug, Clone, Copy, PartialEq, Eq, Structural)]
pub enum Token {
    Ampersand,
    Asterisk,
    CloseBrace,
    CloseBracket,
    CloseParenthesis,
    DoubleQuote,
    Dollar,
    Equal,
    GreaterThan,
    LesserThan,
    Newline,
    OpenBrace,
    OpenBracket,
    OpenParenthesis,
    Semicolon,
    Tilda,
    VerticalBar,
    Spaces { start: usize, end: usize },
    String { start: usize, end: usize },
    QuotedString { start: usize, end: usize },
}

/// The whitespace characters coalesced into a `Spaces` token.
pub open spec fn is_space(c: char) -> bool {
    c == ' ' || c == '\t'
}

/// The operator token of a reserved character, if `c` is one.
pub open spec fn op_of(c: char) -> Option<Token> {
    if c == '&' {
        Some(Token::Ampersand)
    } else if c == '*' {
        Some(Token::Asterisk)
    } else if c == '}' {
        Some(Token::CloseBrace)
    } else if c == ']' {
        Some(Token::CloseBracket)
    } else if c == ')' {
        Some(Token::CloseParenthesis)
    } else if c == '"' {
        Some(Token::DoubleQuote)
    } else if c == '$' {
        Some(Token::Dollar)
    } else if c == '=' {
        Some(Token::Equal)
    } else if c == '>' {
        Some(Token::GreaterThan)
    } else if c == '<' {
        Some(Token::LesserThan)
    } else if c == '\n' {
        Some(Token::Newline)
    } else if c == '{' {
        Some(Token::OpenBrace)
    } else if c == '[' {
        Some(Token::OpenBracket)
    } else if c == '(' {
        Some(Token::OpenParenthesis)
    } else if c == ';' {
        Some(Token::Semicolon)
    } else if c == '~' {
        Some(Token::Tilda)
    } else if c == '|' {
        Some(Token::VerticalBar)
    } else {
        None
    }
}

/// Whether `c` is a reserved single-character operator.
pub open spec fn is_reserved(c: char) -> bool {
    ||| c == '&'
    ||| c == '*'
    ||| c == '}'
    ||| c == ']'
    ||| c == ')'
    ||| c == '"'
    ||| c == '$'
    ||| c == '='
    ||| c == '>'
    ||| c == '<'
    ||| c == '\n'
    ||| c == '{'
    ||| c == '['
    ||| c == '('
    ||| c == ';'
    ||| c == '~'
    ||| c == '|'
}

/// A character is reserved exactly when it maps to an operator token.
pub proof fn lemma_reserved_op(c: char)
    ensures
        is_reserved(c) <==> op_of(c) is Some,
{
}

/// The character of an operator token, if `t` is one.
pub open spec fn op_char_opt(t: Token) -> Option<char> {
    match t {
        Token::Ampersand => Some('&'),
        Token::Asterisk => Some('*'),
        Token::CloseBrace => Some('}'),
        Token::CloseBracket => Some(']'),
        Token::CloseParenthesis => Some(')'),
        Token::DoubleQuote => Some('"'),
        Token::Dollar => Some('$'),
        Token::Equal => Some('='),
        Token::GreaterThan => Some('>'),
        Token::LesserThan => Some('<'),
        Token::Newline => Some('\n'),
        Token::OpenBrace => Some('{'),
        Token::OpenBracket => Some('['),
        Token::OpenParenthesis => Some('('),
        Token::Semicolon => Some(';'),
        Token::Tilda => Some('~'),
        Token::VerticalBar => Some('|'),
        Token::Spaces { .. } => None,
        Token::String { .. } => None,
        Token::QuotedString { .. } => None,
    }
}

/// The literal text a token stands for: the spanned characters of a
/// text-bearing token, or the single character of an operator token.
pub open spec fn token_text(s: Seq<char>, t: Token) -> Seq<char> {
    match t {
        Token::Spaces { start, end } => s.subrange(start as int, end as int),
        Token::String { start, end } => s.subrange(start as int, end as int),
        Token::QuotedString { start, end } => s.subrange(start as int, end as int),
        _ => seq![op_char_opt(t)->0],
    }
}

/// The offset of the first `'` at or after `i`, if any.
pub open spec fn close_quote(s: Seq<char>, i: nat) -> Option<nat>
    decreases s.len() - i,
{
    if i >= s.len() {
        None
    } else if s[i as int] == '\'' {
        Some(i)
    } else {
        close_quote(s, i + 1)
    }
}

/// The end of the whitespace run beginning at `i`.
pub open spec fn spaces_end(s: Seq<char>, i: nat) -> nat
    decreases s.len() - i,
{
    if i < s.len() && is_space(s[i as int]) {
        spaces_end(s, i + 1)
    } else {
        i
    }
}

/// The end of the raw text run continuing at `i`: a backslash consumes
/// itself and the next character (or fails at end of input), and the run
/// stops before whitespace, a reserved operator or a single quote.
pub open spec fn raw_end(s: Seq<char>, i: nat) -> Result<nat, Error>
    decreases s.len() - i,
{
    if i >= s.len() {
        Ok(i)
    } else if s[i as int] == '\\' {
        if i + 1 < s.len() {
            raw_end(s, i + 2)
        } else {
            Err(Error::DanglingEscape)
        }
    } else if is_space(s[i as int]) || is_reserved(s[i as int]) || s[i as int] == '\'' {
        Ok(i)
    } else {
        raw_end(s, i + 1)
    }
}

/// One step of the lexer: the token beginning at `pos` and the cursor
/// position after it, or the error raised there. In priority order: a
/// single-quoted string, a whitespace run, an operator, a raw text run;
/// past the end of input, the `Eos` sentinel.
pub open spec fn spec_scan(s: Seq<char>, pos: nat) -> Result<(Token, nat), Error> {
    if pos >= s.len() {
        Err(Error::Eos)
    } else {
        let c = s[pos as int];
        if c == '\'' {
            match close_quote(s, pos + 1) {
                Some(j) => Ok(
                    (Token::QuotedString { start: (pos + 1) as usize, end: j as usize }, j + 1),
                ),
                None => Err(Error::UnterminatedQuote),
            }
        } else if is_space(c) {
            Ok((Token::Spaces { start: pos as usize, end: spaces_end(s, pos) as usize }, spaces_end(s, pos)))
        } else {
            match op_of(c) {
                Some(t) => Ok((t, pos + 1)),
                None => match raw_end(s, pos) {
                    Ok(e) => Ok((Token::String { start: pos as usize, end: e as usize }, e)),
                    Err(er) => Err(er),
                },
            }
        }
    }
}

pub proof fn lemma_close_quote(s: Seq<char>, i: nat)
    ensures
        close_quote(s, i) matches Some(j) ==> i <= j < s.len() && s[j as int] == '\'',
    decreases s.len() - i,
{
    if i < s.len() && s[i as int] != '\'' {
        lemma_close_quote(s, i + 1);
    }
}

pub proof fn lemma_spaces_end(s: Seq<char>, i: nat)
    requires
        i <= s.len(),
    ensures
        i <= spaces_end(s, i) <= s.len(),
    decreases s.len() - i,
{
    if i < s.len() && is_space(s[i as int]) {
        lemma_spaces_end(s, i + 1);
    }
}

pub proof fn lemma_raw_end(s: Seq<char>, i: nat)
    requires
        i <= s.len(),
    ensures
        raw_end(s, i) matches Ok(e) ==> i <= e <= s.len(),
    decreases s.len() - i,
{
    if i < s.len() {
        if s[i as int] == '\\' {
            if i + 1 < s.len() {
                lemma_raw_end(s, i + 2);
            }
        } else if !(is_space(s[i as int]) || is_reserved(s[i as int]) || s[i as int] == '\'') {
            lemma_raw_end(s, i + 1);
        }
    }
}

/// A successful scan moves the cursor strictly forward and never past the
/// end of the input.
pub proof fn lemma_scan_advance(s: Seq<char>, pos: nat)
    ensures
        spec_scan(s, pos) matches Ok(tp) ==> pos < tp.1 <= s.len(),
{
    if pos < s.len() {
        let c = s[pos as int];
        if c == '\'' {
            lemma_close_quote(s, pos + 1);
        } else if is_space(c) {
            lemma_spaces_end(s, pos + 1);
        } else if op_of(c) is None {
            lemma_raw_end(s, pos);
            if raw_end(s, pos) is Ok {
                if s[pos as int] == '\\' {
                    if pos + 1 < s.len() {
                        lemma_raw_end(s, pos + 2);
                    }
                } else {
                    lemma_raw_end(s, pos + 1);
                }
            }
        }
    }
}

/// A successful scan moves the cursor strictly forward, never past the end,
/// and yields a token whose range is well formed.
pub proof fn lemma_scan(s: Seq<char>, pos: nat)
    requires
        s.len() <= usize::MAX,
    ensures
        spec_scan(s, pos) is Ok ==> pos < s.len(),
        spec_scan(s, pos) matches Ok(tp) ==> {
            &&& pos < tp.1 <= s.len()
            &&& match tp.0 {
                Token::Spaces { start, end } => start as nat == pos && pos < end as nat && end
                    as nat == tp.1,
                Token::String { start, end } => start as nat == pos && pos < end as nat && end
                    as nat == tp.1,
                Token::QuotedString { start, end } => start as nat == pos + 1 && start <= end && (
                end as nat) + 1 == tp.1,
                _ => tp.1 == pos + 1,
            }
        },
{
    if pos < s.len() {
        let c = s[pos as int];
        if c == '\'' {
            lemma_close_quote(s, pos + 1);
        } else if is_space(c) {
            lemma_spaces_end(s, pos + 1);
        } else if op_of(c) is None {
            lemma_raw_end(s, pos);
            if raw_end(s, pos) is Ok {
                if s[pos as int] == '\\' {
                    if pos + 1 < s.len() {
                        lemma_raw_end(s, pos + 2);
                    }
                } else {
                    lemma_raw_end(s, pos + 1);
                }
            }
        }
    }
}

/// The lexer. It borrows the line for its lifetime and keeps a cursor,
/// measured in characters, into it.
#[derive(Debug, Clone, Copy)]
pub struct Tokenizer<'a> {
    input: &'a str,
    len: usize,
    pos: usize,
}

impl<'a> Tokenizer<'a> {
    /// The line being scanned.
    pub closed spec fn src(self) -> Seq<char> {
        self.input@
    }

    /// The cursor: the offset of the next character to scan.
    pub closed spec fn cursor(self) -> nat {
        self.pos as nat
    }

    /// The cursor never passes the end of the line.
    pub closed spec fn wf(self) -> bool {
        self.pos <= self.input@.len() && self.len == self.input@.len()
    }

    /// A well-formed lexer sits inside its line, which fits in memory.
    pub proof fn lemma_wf(self)
        requires
            self.wf(),
        ensures
            self.cursor() <= self.src().len(),
            self.src().len() <= usize::MAX,
    {
    }

    /// A fresh lexer over `s`, with the cursor at the start.
    pub fn new(s: &'a str) -> (t: Tokenizer<'a>)
        ensures
            t.wf(),
            t.src() == s@,
            t.cursor() == 0,
    {
        let len = s.unicode_len();
        Tokenizer { input: s, len, pos: 0 }
    }

    /// The line, for callers that turn token ranges back into text.
    pub(crate) fn source(&self) -> (r: &'a str)
        ensures
            r@ == self.src(),
    {
        self.input
    }

    /// Scans the token at the cursor without committing to it.
    #[verifier::loop_isolation(false)]
    fn scan(&self) -> (r: Result<(Token, usize), Error>)
        requires
            self.wf(),
        ensures
            match spec_scan(self.src(), self.cursor()) {
                Ok((t, p)) => r matches Ok(tp) && tp.0 == t && tp.1 as nat == p && tp.1
                    <= self.input@.len(),
                Err(e) => r == Err::<(Token, usize), Error>(e),
            },
    {
        if self.pos >= self.len {
            return Err(Error::Eos);
        }
        let c = self.input.get_char(self.pos);
        if c == '\'' {
            let mut j = self.pos + 1;
            loop
                invariant
                    self.pos + 1 <= j <= self.len,
                    close_quote(self.src(), (self.pos + 1) as nat) == close_quote(
                        self.src(),
                        j as nat,
                    ),
                decreases self.len - j,
            {
                if j >= self.len {
                    return Err(Error::UnterminatedQuote);
                }
                let cj = self.input.get_char(j);
                if cj == '\'' {
                    return Ok((Token::QuotedString { start: self.pos + 1, end: j }, j + 1));
                }
                j = j + 1;
            }
        }
        if c == ' ' || c == '\t' {
            let mut j = self.pos + 1;
            loop
                invariant
                    self.pos < j <= self.len,
                    spaces_end(self.src(), self.pos as nat) == spaces_end(self.src(), j as nat),
                decreases self.len - j,
            {
                if j >= self.len {
                    return Ok((Token::Spaces { start: self.pos, end: j }, j));
                }
                let cj = self.input.get_char(j);
                if !(cj == ' ' || cj == '\t') {
                    return Ok((Token::Spaces { start: self.pos, end: j }, j));
                }
                j = j + 1;
            }
        }
        if let Some(t) = Token::from_char(c) {
            return Ok((t, self.pos + 1));
        }
        let mut j = self.pos;
        loop
            invariant
                self.pos <= j <= self.len,
                raw_end(self.src(), self.pos as nat) == raw_end(self.src(), j as nat),
            decreases self.len - j,
        {
            if j >= self.len {
                return Ok((Token::String { start: self.pos, end: j }, j));
            }
            let cj = self.input.get_char(j);
            if cj == '\\' {
                if j + 1 < self.len {
                    j = j + 2;
                } else {
                    return Err(Error::DanglingEscape);
                }
            } else if cj == ' ' || cj == '\t' || cj == '\'' {
                return Ok((Token::String { start: self.pos, end: j }, j));
            } else if Token::from_char(cj).is_some() {
                return Ok((Token::String { start: self.pos, end: j }, j));
            } else {
                j = j + 1;
            }
        }
    }

    /// Scans and consumes the next token: the cursor moves past it on
    /// success and stays put on an error or at the end of input.
    pub fn next(&mut self) -> (r: Result<Token, Error>)
        requires
            old(self).wf(),
        ensures
            final(self).wf(),
            final(self).src() == old(self).src(),
            match spec_scan(old(self).src(), old(self).cursor()) {
                Ok((t, p)) => r == Ok::<Token, Error>(t) && final(self).cursor() == p,
                Err(e) => r == Err::<Token, Error>(e) && *final(self) == *old(self),
            },
    {
        match self.scan() {
            Ok((t, p)) => {
                self.pos = p;
                Ok(t)
            },
            Err(e) => Err(e),
        }
    }

    /// The result `next` would give, without moving the cursor.
    pub fn peek_token(&mut self) -> (r: Result<Token, Error>)
        requires
            old(self).wf(),
        ensures
            *final(self) == *old(self),
            match spec_scan(old(self).src(), old(self).cursor()) {
                Ok((t, p)) => r == Ok::<Token, Error>(t),
                Err(e) => r == Err::<Token, Error>(e),
            },
    {
        match self.scan() {
            Ok((t, _)) => Ok(t),
            Err(e) => Err(e),
        }
    }

    /// Consumes the next token only if it equals `token`; otherwise the
    /// cursor is untouched.
    pub fn eat_token(&mut self, token: Token) -> (b: bool)
        requires
            old(self).wf(),
        ensures
            final(self).wf(),
            final(self).src() == old(self).src(),
            match spec_scan(old(self).src(), old(self).cursor()) {
                Ok((t, p)) => if t == token {
                    b && final(self).cursor() == p
                } else {
                    !b && *final(self) == *old(self)
                },
                Err(e) => !b && *final(self) == *old(self),
            },
    {
        match self.scan() {
            Ok((t, p)) => {
                if t == token {
                    self.pos = p;
                    true
                } else {
                    false
                }
            },
            Err(_) => false,
        }
    }
}

impl Token {
    /// The operator token a reserved character maps to.
    pub fn from_char(c: char) -> (r: Option<Token>)
        ensures
            r == op_of(c),
    {
        match c {
            '&' => Some(Token::Ampersand),
            '*' => Some(Token::Asterisk),
            '}' => Some(Token::CloseBrace),
            ']' => Some(Token::CloseBracket),
            ')' => Some(Token::CloseParenthesis),
            '"' => Some(Token::DoubleQuote),
            '$' => Some(Token::Dollar),
            '=' => Some(Token::Equal),
            '>' => Some(Token::GreaterThan),
            '<' => Some(Token::LesserThan),
            '\n' => Some(Token::Newline),
            '{' => Some(Token::OpenBrace),
            '[' => Some(Token::OpenBracket),
            '(' => Some(Token::OpenParenthesis),
            ';' => Some(Token::Semicolon),
            '~' => Some(Token::Tilda),
            '|' => Some(Token::VerticalBar),
            _ => None,
        }
    }

    /// The character an operator token stands for; `None` for the
    /// text-bearing tokens.
    pub fn to_char(self) -> (r: Option<char>)
        ensures
            r == op_char_opt(self),
    {
        match self {
            Token::Ampersand => Some('&'),
            Token::Asterisk => Some('*'),
            Token::CloseBrace => Some('}'),
            Token::CloseBracket => Some(']'),
            Token::CloseParenthesis => Some(')'),
            Token::DoubleQuote => Some('"'),
            Token::Dollar => Some('$'),
            Token::Equal => Some('='),
            Token::GreaterThan => Some('>'),
            Token::LesserThan => Some('<'),
            Token::Newline => Some('\n'),
            Token::OpenBrace => Some('{'),
            Token::OpenBracket => Some('['),
            Token::OpenParenthesis => Some('('),
            Token::Semicolon => Some(';'),
            Token::Tilda => Some('~'),
            Token::VerticalBar => Some('|'),
            Token::Spaces { .. } => None,
            Token::String { .. } => None,
            Token::QuotedString { .. } => None,
        }
    }
}

} // verus!
