//! The word parser: groups the lexer's tokens into words.
//!
//! A word is a span of literal text (quotes stripped, escapes resolved),
//! a `name=value` variable assignment, or a control operator. The parser
//! drains the lexer completely: a caller sees either the whole word
//! sequence or a single terminal error, never a partial result.

use vstd::prelude::*;

use crate::token;
use crate::token::Token;
use crate::token::Tokenizer;

verus! {

use vstd::string::StrSliceExecFns;
use vstd::string::StringExecFns;

/// A parse failure, or the end-of-word-sequence sentinel `Eos`, which the
/// parse driver treats as normal termination and never surfaces.
#[derive(Debug, PartialEq, Eq)]
pub enum Error {
    /// A double-quoted string with no closing quote.
    UnterminatedQuote,
    /// An `=` operator with no preceding candidate variable name.
    DanglingEquals,
    /// No words are left.
    Eos,
    /// A lexical error, passed through unchanged.
    TokenErr(token::Error),
}

/// A `name=value` variable assignment.
#[derive(Debug, PartialEq)]
pub struct Variable {
    pub name: String,
    pub value: String,
}

/// Reinterpreted token for parser.
#[derive(Debug, PartialEq)]
pub enum Word {
    And,
    Or,
    Pipe,
    Terminator,
    String(String),
    Variable(Variable),
}

/// The mathematical shape of a `Word`: its text as character sequences.
pub enum WordView {
    And,
    Or,
    Pipe,
    Terminator,
    Str(Seq<char>),
    Var { name: Seq<char>, value: Seq<char> },
}

impl View for Word {
    type V = WordView;

    open spec fn view(&self) -> WordView {
        match self {
            Word::And => WordView::And,
            Word::Or => WordView::Or,
            Word::Pipe => WordView::Pipe,
            Word::Terminator => WordView::Terminator,
            Word::String(s) => WordView::Str(s@),
            Word::Variable(v) => WordView::Var { name: v.name@, value: v.value@ },
        }
    }
}

/// Whether `c` is Unicode-alphanumeric. The result depends on the
/// character alone; it is given exactly by `char::is_alphanumeric`.
pub uninterp spec fn alphanumeric(c: char) -> bool;

/// Relies on char::is_alphanumeric: whether `c` is Unicode-alphanumeric, a
/// property of the character alone. No reserved operator character, space,
/// tab, quote or backslash is alphanumeric: they are all ASCII punctuation
/// or whitespace.
#[verifier::external_body]
fn is_alphanumeric_char(c: char) -> (r: bool)
    ensures
        r == alphanumeric(c),
        r ==> !token::is_reserved(c) && !token::is_space(c) && c != '\'' && c != '\\',
{
    c.is_alphanumeric()
}

/// Relies on String::push: appends one character to the string.
#[verifier::external_body]
fn push_char(s: &mut String, c: char)
    ensures
        final(s)@ == old(s)@.push(c),
{
    s.push(c);
}

/// Whether `c` is an ASCII decimal digit.
pub open spec fn is_digit(c: char) -> bool {
    '0' as int <= c as int <= '9' as int
}

/// Whether the lexer keeps `c` inside a raw text run: not a reserved
/// operator, not whitespace, not a quote, not the escape marker. Every
/// alphanumeric character is plain: the reserved and whitespace characters
/// are all ASCII punctuation or whitespace, which is never alphanumeric.
pub open spec fn plain_char(c: char) -> bool {
    !token::is_reserved(c) && !token::is_space(c) && c != '\'' && c != '\\'
}

/// Whether `c` may appear in a variable name at position `i`: alphanumeric
/// or underscore, and not a digit in the leading position.
pub open spec fn is_name_char(c: char, i: int) -> bool {
    (alphanumeric(c) || c == '_') && plain_char(c) && !(i == 0 && is_digit(c))
}

/// Whether `s` is syntactically a valid variable name.
pub open spec fn is_name(s: Seq<char>) -> bool {
    forall|i: int| 0 <= i < s.len() ==> is_name_char(#[trigger] s[i], i)
}

/// Escape resolution: a backslash drops out and the character after it is
/// kept literally. A trailing lone backslash (which a well-formed token
/// never contains) is kept as it stands.
pub open spec fn unescape(t: Seq<char>) -> Seq<char>
    decreases t.len(),
{
    if t.len() == 0 {
        Seq::empty()
    } else if t[0] == '\\' {
        if t.len() >= 2 {
            seq![t[1]] + unescape(t.skip(2))
        } else {
            seq![t[0]]
        }
    } else {
        seq![t[0]] + unescape(t.skip(1))
    }
}

/// The text a token contributes to a word: raw text runs have their
/// escapes resolved, every other token is taken verbatim.
pub open spec fn word_text(s: Seq<char>, t: Token) -> Seq<char> {
    match t {
        Token::String { start, end } => unescape(s.subrange(start as int, end as int)),
        _ => token::token_text(s, t),
    }
}

/// The body of a double-quoted segment continuing at `pos`: the text of
/// every token up to the closing `"`, and the position after it. Running
/// out of input inside the segment is an `UnterminatedQuote` error.
pub open spec fn spec_dq(s: Seq<char>, pos: nat) -> Result<(Seq<char>, nat), Error>
    decreases s.len() - pos via check_spec_dq
{
    match token::spec_scan(s, pos) {
        Err(token::Error::Eos) => Err(Error::UnterminatedQuote),
        Err(e) => Err(Error::TokenErr(e)),
        Ok((t, p2)) => match t {
            Token::DoubleQuote => Ok((Seq::empty(), p2)),
            _ => match spec_dq(s, p2) {
                Ok((v, p3)) => Ok((word_text(s, t) + v, p3)),
                Err(e) => Err(e),
            },
        },
    }
}

#[via_fn]
proof fn check_spec_dq(s: Seq<char>, pos: nat) {
    token::lemma_scan_advance(s, pos);
}

/// The value of an assignment, scanned from `pos`: token text accumulates
/// until whitespace, a control operator or the end of input, none of which
/// is consumed; a double-quoted segment ends the value right after its
/// closing quote.
pub open spec fn spec_value(s: Seq<char>, pos: nat) -> Result<(Seq<char>, nat), Error>
    decreases s.len() - pos via check_spec_value
{
    match token::spec_scan(s, pos) {
        Err(token::Error::Eos) => Ok((Seq::empty(), pos)),
        Err(e) => Err(Error::TokenErr(e)),
        Ok((t, p2)) => match t {
            Token::DoubleQuote => spec_dq(s, p2),
            Token::Newline | Token::Semicolon | Token::Spaces { .. } | Token::Ampersand
                | Token::VerticalBar => Ok((Seq::empty(), pos)),
            _ => match spec_value(s, p2) {
                Ok((v, p3)) => Ok((word_text(s, t) + v, p3)),
                Err(e) => Err(e),
            },
        },
    }
}

#[via_fn]
proof fn check_spec_value(s: Seq<char>, pos: nat) {
    token::lemma_scan_advance(s, pos);
}

/// The rest of a plain word already begun: the text still to accumulate
/// and the position after the word. Whitespace ends the word and is
/// consumed; a control operator ends it and is left in place; a
/// double-quoted segment is appended and accumulation continues.
pub open spec fn spec_word_tail(s: Seq<char>, pos: nat) -> Result<(Seq<char>, nat), Error>
    decreases s.len() - pos via check_spec_word_tail
{
    match token::spec_scan(s, pos) {
        Err(token::Error::Eos) => Ok((Seq::empty(), pos)),
        Err(e) => Err(Error::TokenErr(e)),
        Ok((t, p2)) => match t {
            Token::Ampersand | Token::VerticalBar | Token::Newline | Token::Semicolon => Ok(
                (Seq::empty(), pos),
            ),
            Token::Spaces { .. } => Ok((Seq::empty(), p2)),
            Token::DoubleQuote => match spec_dq(s, p2) {
                Ok((v, p3)) => match spec_word_tail(s, p3) {
                    Ok((rest, p4)) => Ok((v + rest, p4)),
                    Err(e) => Err(e),
                },
                Err(e) => Err(e),
            },
            _ => match spec_word_tail(s, p2) {
                Ok((rest, p3)) => Ok((word_text(s, t) + rest, p3)),
                Err(e) => Err(e),
            },
        },
    }
}

#[via_fn]
proof fn check_spec_word_tail(s: Seq<char>, pos: nat) {
    token::lemma_scan_advance(s, pos);
    match token::spec_scan(s, pos) {
        Ok((Token::DoubleQuote, p2)) => lemma_dq_advance(s, p2),
        _ => (),
    }
}

/// One word, scanned from `pos`: leading whitespace is skipped; `&&`,
/// `||`, `|`, `;`, newline and a lone `&` become control words when no
/// text has accumulated; a leading valid name directly followed by `=`
/// commits to an assignment; everything else accumulates a plain word.
/// `Err(Eos)` signals the end of the word sequence.
pub open spec fn spec_next_word(s: Seq<char>, pos: nat) -> Result<(WordView, nat), Error>
    decreases s.len() - pos via check_spec_next_word
{
    match token::spec_scan(s, pos) {
        Err(token::Error::Eos) => Err(Error::Eos),
        Err(e) => Err(Error::TokenErr(e)),
        Ok((t, p2)) => match t {
            Token::Spaces { .. } => spec_next_word(s, p2),
            Token::Ampersand => match token::spec_scan(s, p2) {
                Ok((Token::Ampersand, p3)) => Ok((WordView::And, p3)),
                _ => Ok((WordView::Terminator, p2)),
            },
            Token::VerticalBar => match token::spec_scan(s, p2) {
                Ok((Token::VerticalBar, p3)) => Ok((WordView::Or, p3)),
                _ => Ok((WordView::Pipe, p2)),
            },
            Token::Newline | Token::Semicolon => Ok((WordView::Terminator, p2)),
            Token::Equal => Err(Error::DanglingEquals),
            Token::DoubleQuote => match spec_dq(s, p2) {
                Ok((v, p3)) => match spec_word_tail(s, p3) {
                    Ok((rest, p4)) => Ok((WordView::Str(v + rest), p4)),
                    Err(e) => Err(e),
                },
                Err(e) => Err(e),
            },
            Token::String { start, end } => {
                let raw = s.subrange(start as int, end as int);
                match token::spec_scan(s, p2) {
                    Ok((Token::Equal, p3)) => if is_name(raw) {
                        match spec_value(s, p3) {
                            Ok((v, p4)) => Ok((WordView::Var { name: raw, value: v }, p4)),
                            Err(e) => Err(e),
                        }
                    } else {
                        match spec_word_tail(s, p2) {
                            Ok((rest, p3b)) => Ok((WordView::Str(unescape(raw) + rest), p3b)),
                            Err(e) => Err(e),
                        }
                    },
                    _ => match spec_word_tail(s, p2) {
                        Ok((rest, p3b)) => Ok((WordView::Str(unescape(raw) + rest), p3b)),
                        Err(e) => Err(e),
                    },
                }
            },
            _ => match spec_word_tail(s, p2) {
                Ok((rest, p3)) => Ok((WordView::Str(word_text(s, t) + rest), p3)),
                Err(e) => Err(e),
            },
        },
    }
}

#[via_fn]
proof fn check_spec_next_word(s: Seq<char>, pos: nat) {
    token::lemma_scan_advance(s, pos);
}

/// The whole word sequence of `s` from `pos` on, or the single error that
/// aborts parsing.
pub open spec fn spec_parse(s: Seq<char>, pos: nat) -> Result<Seq<WordView>, Error>
    decreases s.len() - pos via check_spec_parse
{
    match spec_next_word(s, pos) {
        Err(Error::Eos) => Ok(Seq::empty()),
        Err(e) => Err(e),
        Ok((w, p2)) => match spec_parse(s, p2) {
            Ok(ws) => Ok(seq![w] + ws),
            Err(e) => Err(e),
        },
    }
}

#[via_fn]
proof fn check_spec_parse(s: Seq<char>, pos: nat) {
    lemma_next_word_advance(s, pos);
}

/// A completed double-quoted segment moves the position strictly forward.
pub proof fn lemma_dq_advance(s: Seq<char>, pos: nat)
    ensures
        spec_dq(s, pos) matches Ok(vp) ==> pos < vp.1 <= s.len(),
    decreases s.len() - pos,
{
    token::lemma_scan_advance(s, pos);
    match token::spec_scan(s, pos) {
        Ok((t, p2)) => {
            if !(t is DoubleQuote) {
                lemma_dq_advance(s, p2);
            }
        },
        _ => (),
    }
}

/// A completed assignment value never moves the position backwards.
pub proof fn lemma_value_advance(s: Seq<char>, pos: nat)
    requires
        pos <= s.len(),
    ensures
        spec_value(s, pos) matches Ok(vp) ==> pos <= vp.1 <= s.len(),
    decreases s.len() - pos,
{
    token::lemma_scan_advance(s, pos);
    match token::spec_scan(s, pos) {
        Ok((t, p2)) => {
            if t is DoubleQuote {
                lemma_dq_advance(s, p2);
            } else {
                lemma_value_advance(s, p2);
            }
        },
        _ => (),
    }
}

/// A completed word tail never moves the position backwards.
pub proof fn lemma_word_tail_advance(s: Seq<char>, pos: nat)
    requires
        pos <= s.len(),
    ensures
        spec_word_tail(s, pos) matches Ok(vp) ==> pos <= vp.1 <= s.len(),
    decreases s.len() - pos,
{
    token::lemma_scan_advance(s, pos);
    match token::spec_scan(s, pos) {
        Ok((t, p2)) => {
            if t is DoubleQuote {
                lemma_dq_advance(s, p2);
                match spec_dq(s, p2) {
                    Ok((v, p3)) => lemma_word_tail_advance(s, p3),
                    _ => (),
                }
            } else {
                lemma_word_tail_advance(s, p2);
            }
        },
        _ => (),
    }
}

/// Whether the range of a text-bearing token lies inside `s`.
pub open spec fn token_range_ok(s: Seq<char>, t: Token) -> bool {
    match t {
        Token::Spaces { start, end } => start <= end && end <= s.len(),
        Token::String { start, end } => start <= end && end <= s.len(),
        Token::QuotedString { start, end } => start <= end && end <= s.len(),
        _ => true,
    }
}

/// Whether `s` is syntactically a valid variable name: no leading digit,
/// every character alphanumeric or an underscore.
pub fn is_variable_name(s: &str) -> (r: bool)
    ensures
        r == is_name(s@),
{
    let len = s.unicode_len();
    let mut i: usize = 0;
    while i < len
        invariant
            i <= len,
            len as nat == s@.len(),
            forall|k: int| 0 <= k < i ==> is_name_char(#[trigger] s@[k], k),
        decreases len - i,
    {
        let c = s.get_char(i);
        let u = c as u32;
        if i == 0 && 48 <= u && u <= 57 {
            assert(!is_name_char(s@[0], 0));
            return false;
        }
        if !(is_alphanumeric_char(c) || c == '_') {
            assert(!is_name_char(s@[i as int], i as int));
            return false;
        }
        assert(plain_char(c)) by {
            if c == '_' {
                assert(token::op_of('_') is None);
            }
        }
        i = i + 1;
    }
    true
}

/// Appends `src[start..end]` to `dst` verbatim.
fn push_str_range(dst: &mut String, src: &str, start: usize, end: usize)
    requires
        start <= end <= src@.len(),
    ensures
        final(dst)@ == old(dst)@ + src@.subrange(start as int, end as int),
{
    let piece = src.substring_char(start, end);
    dst.append(piece);
}

/// Appends `src[start..end]` to `dst` with escapes resolved.
#[verifier::loop_isolation(false)]
fn push_unescaped_range(dst: &mut String, src: &str, start: usize, end: usize)
    requires
        start <= end <= src@.len(),
    ensures
        final(dst)@ == old(dst)@ + unescape(src@.subrange(start as int, end as int)),
{
    let mut i = start;
    while i < end
        invariant
            start <= i <= end,
            dst@ + unescape(src@.subrange(i as int, end as int)) == old(dst)@ + unescape(
                src@.subrange(start as int, end as int),
            ),
        decreases end - i,
    {
        let ghost cur = src@.subrange(i as int, end as int);
        let ghost pre = dst@;
        let c = src.get_char(i);
        assert(cur[0] == c);
        if c == '\\' {
            if i + 1 < end {
                let c2 = src.get_char(i + 1);
                push_char(dst, c2);
                proof {
                    assert(cur[1] == c2);
                    assert(cur.skip(2) =~= src@.subrange(i + 2, end as int));
                    assert(unescape(cur) == seq![c2] + unescape(cur.skip(2)));
                    assert(pre.push(c2) + unescape(cur.skip(2)) =~= pre + unescape(cur));
                }
                i = i + 2;
            } else {
                push_char(dst, '\\');
                proof {
                    assert(cur.len() == 1);
                    assert(unescape(cur) == seq![c]);
                    assert(src@.subrange(i + 1, end as int) =~= Seq::<char>::empty());
                    assert(pre.push(c) + unescape(src@.subrange(i + 1, end as int)) =~= pre
                        + unescape(cur));
                }
                i = i + 1;
            }
        } else {
            push_char(dst, c);
            proof {
                assert(cur.skip(1) =~= src@.subrange(i + 1, end as int));
                assert(unescape(cur) == seq![c] + unescape(cur.skip(1)));
                assert(pre.push(c) + unescape(cur.skip(1)) =~= pre + unescape(cur));
            }
            i = i + 1;
        }
    }
    assert(src@.subrange(end as int, end as int) =~= Seq::<char>::empty());
    assert(dst@ =~= dst@ + unescape(src@.subrange(end as int, end as int)));
}

/// A parsed word moves the position strictly forward.
pub proof fn lemma_next_word_advance(s: Seq<char>, pos: nat)
    ensures
        spec_next_word(s, pos) matches Ok(wp) ==> pos < wp.1 <= s.len(),
    decreases s.len() - pos,
{
    token::lemma_scan_advance(s, pos);
    match token::spec_scan(s, pos) {
        Ok((t, p2)) => {
            match t {
                Token::Spaces { .. } => {
                    lemma_next_word_advance(s, p2);
                },
                Token::Ampersand | Token::VerticalBar => {
                    token::lemma_scan_advance(s, p2);
                },
                Token::DoubleQuote => {
                    lemma_dq_advance(s, p2);
                    match spec_dq(s, p2) {
                        Ok((v, p3)) => lemma_word_tail_advance(s, p3),
                        _ => (),
                    }
                },
                Token::String { .. } => {
                    token::lemma_scan_advance(s, p2);
                    match token::spec_scan(s, p2) {
                        Ok((Token::Equal, p3)) => lemma_value_advance(s, p3),
                        _ => (),
                    }
                    lemma_word_tail_advance(s, p2);
                },
                _ => {
                    lemma_word_tail_advance(s, p2);
                },
            }
        },
        _ => (),
    }
}

/// The word parser: a lexer plus the grouping rules.
#[derive(Debug, Clone, Copy)]
pub struct Parser<'a> {
    tokenizer: Tokenizer<'a>,
}

impl<'a> Parser<'a> {
    /// The line being parsed.
    pub closed spec fn src(self) -> Seq<char> {
        self.tokenizer.src()
    }

    /// The position of the next character to consume.
    pub closed spec fn cursor(self) -> nat {
        self.tokenizer.cursor()
    }

    /// The parser's cursor never passes the end of its line.
    pub closed spec fn wf(self) -> bool {
        self.tokenizer.wf()
    }

    /// A fresh parser over `s`, with the cursor at the start.
    pub fn new(s: &'a str) -> (p: Parser<'a>)
        ensures
            p.wf(),
            p.src() == s@,
            p.cursor() == 0,
    {
        Parser { tokenizer: Tokenizer::new(s) }
    }

    fn next(&mut self) -> (r: Result<Token, token::Error>)
        requires
            old(self).wf(),
        ensures
            final(self).wf(),
            final(self).src() == old(self).src(),
            match token::spec_scan(old(self).src(), old(self).cursor()) {
                Ok((t, p)) => r == Ok::<Token, token::Error>(t) && final(self).cursor() == p,
                Err(e) => r == Err::<Token, token::Error>(e) && *final(self) == *old(self),
            },
    {
        self.tokenizer.next()
    }

    fn peek_token(&mut self) -> (r: Result<Token, token::Error>)
        requires
            old(self).wf(),
        ensures
            *final(self) == *old(self),
            match token::spec_scan(old(self).src(), old(self).cursor()) {
                Ok((t, p)) => r == Ok::<Token, token::Error>(t),
                Err(e) => r == Err::<Token, token::Error>(e),
            },
    {
        self.tokenizer.peek_token()
    }

    fn eat_token(&mut self, token: Token) -> (b: bool)
        requires
            old(self).wf(),
        ensures
            final(self).wf(),
            final(self).src() == old(self).src(),
            match token::spec_scan(old(self).src(), old(self).cursor()) {
                Ok((t, p)) => if t == token {
                    b && final(self).cursor() == p
                } else {
                    !b && *final(self) == *old(self)
                },
                Err(e) => !b && *final(self) == *old(self),
            },
    {
        self.tokenizer.eat_token(token)
    }

    /// Appends the text a just-consumed token contributes to a word.
    fn append_word_text(&self, dst: &mut String, t: Token)
        requires
            self.wf(),
            token_range_ok(self.src(), t),
        ensures
            final(dst)@ == old(dst)@ + word_text(self.src(), t),
    {
        match t {
            Token::String { start, end } => {
                push_unescaped_range(dst, self.tokenizer.source(), start, end);
            },
            Token::Spaces { start, end } => {
                push_str_range(dst, self.tokenizer.source(), start, end);
            },
            Token::QuotedString { start, end } => {
                push_str_range(dst, self.tokenizer.source(), start, end);
            },
            _ => {
                let ghost pre = dst@;
                let c = t.to_char().unwrap();
                push_char(dst, c);
                assert(pre.push(c) =~= pre + seq![c]);
            },
        }
    }

    /// Collects the body of a double-quoted segment, up to and past the
    /// closing `"`.
    #[verifier::loop_isolation(false)]
    fn double_quoted_string(&mut self) -> (r: Result<String, Error>)
        requires
            old(self).wf(),
        ensures
            final(self).wf(),
            final(self).src() == old(self).src(),
            match spec_dq(old(self).src(), old(self).cursor()) {
                Ok((v, p)) => r matches Ok(out) && out@ == v && final(self).cursor() == p,
                Err(e) => r == Err::<String, Error>(e),
            },
    {
        let mut s = String::new();
        loop
            invariant
                self.wf(),
                self.src() == old(self).src(),
                match spec_dq(self.src(), self.cursor()) {
                    Ok((v, p)) => spec_dq(old(self).src(), old(self).cursor()) == Ok::<
                        (Seq<char>, nat),
                        Error,
                    >((s@ + v, p)),
                    Err(e) => spec_dq(old(self).src(), old(self).cursor()) == Err::<
                        (Seq<char>, nat),
                        Error,
                    >(e),
                },
            decreases self.src().len() - self.cursor(),
        {
            proof {
                self.tokenizer.lemma_wf();
                token::lemma_scan(self.src(), self.cursor());
            }
            let ghost c0 = self.cursor();
            let ghost pre = s@;
            match self.next() {
                Ok(Token::DoubleQuote) => {
                    assert(pre + Seq::<char>::empty() =~= pre);
                    return Ok(s);
                },
                Ok(t) => {
                    self.append_word_text(&mut s, t);
                    proof {
                        let src = self.src();
                        match spec_dq(src, self.cursor()) {
                            Ok((v2, p2)) => {
                                assert(spec_dq(src, c0) == Ok::<(Seq<char>, nat), Error>(
                                    (word_text(src, t) + v2, p2),
                                ));
                                assert(pre + (word_text(src, t) + v2) =~= (pre + word_text(
                                    src,
                                    t,
                                )) + v2);
                            },
                            Err(e2) => {
                                assert(spec_dq(src, c0) == Err::<(Seq<char>, nat), Error>(e2));
                            },
                        }
                    }
                },
                Err(token::Error::Eos) => {
                    return Err(Error::UnterminatedQuote);
                },
                Err(e) => {
                    return Err(Error::TokenErr(e));
                },
            }
        }
    }

    /// Scans the value of an assignment, stopping before whitespace, a
    /// control operator or the end of input.
    #[verifier::loop_isolation(false)]
    fn value(&mut self) -> (r: Result<String, Error>)
        requires
            old(self).wf(),
        ensures
            final(self).wf(),
            final(self).src() == old(self).src(),
            match spec_value(old(self).src(), old(self).cursor()) {
                Ok((v, p)) => r matches Ok(out) && out@ == v && final(self).cursor() == p,
                Err(e) => r == Err::<String, Error>(e),
            },
    {
        let mut s = String::new();
        loop
            invariant
                self.wf(),
                self.src() == old(self).src(),
                match spec_value(self.src(), self.cursor()) {
                    Ok((v, p)) => spec_value(old(self).src(), old(self).cursor()) == Ok::<
                        (Seq<char>, nat),
                        Error,
                    >((s@ + v, p)),
                    Err(e) => spec_value(old(self).src(), old(self).cursor()) == Err::<
                        (Seq<char>, nat),
                        Error,
                    >(e),
                },
            decreases self.src().len() - self.cursor(),
        {
            proof {
                self.tokenizer.lemma_wf();
                token::lemma_scan(self.src(), self.cursor());
            }
            let ghost c0 = self.cursor();
            let ghost pre = s@;
            match self.peek_token() {
                Ok(Token::DoubleQuote) => {
                    let _ = self.next();
                    match self.double_quoted_string() {
                        Ok(seg) => {
                            let mut out = s;
                            out.append(seg.as_str());
                            return Ok(out);
                        },
                        Err(e) => {
                            return Err(e);
                        },
                    }
                },
                Ok(Token::Newline) | Ok(Token::Semicolon) | Ok(Token::Spaces { .. }) | Ok(
                    Token::Ampersand,
                ) | Ok(Token::VerticalBar) => {
                    assert(pre + Seq::<char>::empty() =~= pre);
                    return Ok(s);
                },
                Ok(t) => {
                    let _ = self.next();
                    self.append_word_text(&mut s, t);
                    proof {
                        let src = self.src();
                        match spec_value(src, self.cursor()) {
                            Ok((v2, p2)) => {
                                assert(spec_value(src, c0) == Ok::<(Seq<char>, nat), Error>(
                                    (word_text(src, t) + v2, p2),
                                ));
                                assert(pre + (word_text(src, t) + v2) =~= (pre + word_text(
                                    src,
                                    t,
                                )) + v2);
                            },
                            Err(e2) => {
                                assert(spec_value(src, c0) == Err::<(Seq<char>, nat), Error>(
                                    e2,
                                ));
                            },
                        }
                    }
                },
                Err(token::Error::Eos) => {
                    assert(pre + Seq::<char>::empty() =~= pre);
                    return Ok(s);
                },
                Err(e) => {
                    return Err(Error::TokenErr(e));
                },
            }
        }
    }

    /// Accumulates the rest of a plain word into `value`, leaving the
    /// cursor after the word.
    #[verifier::loop_isolation(false)]
    fn word_tail_collect(&mut self, value: &mut String) -> (r: Result<(), Error>)
        requires
            old(self).wf(),
        ensures
            final(self).wf(),
            final(self).src() == old(self).src(),
            match spec_word_tail(old(self).src(), old(self).cursor()) {
                Ok((rest, p)) => r is Ok && final(value)@ == old(value)@ + rest
                    && final(self).cursor() == p,
                Err(e) => r == Err::<(), Error>(e),
            },
    {
        let ghost mut delta: Seq<char> = Seq::empty();
        proof {
            assert(old(value)@ + delta =~= old(value)@);
            match spec_word_tail(self.src(), self.cursor()) {
                Ok((rest, p)) => {
                    assert(delta + rest =~= rest);
                },
                _ => (),
            }
        }
        loop
            invariant
                self.wf(),
                self.src() == old(self).src(),
                value@ == old(value)@ + delta,
                match spec_word_tail(self.src(), self.cursor()) {
                    Ok((rest, p)) => spec_word_tail(old(self).src(), old(self).cursor()) == Ok::<
                        (Seq<char>, nat),
                        Error,
                    >((delta + rest, p)),
                    Err(e) => spec_word_tail(old(self).src(), old(self).cursor()) == Err::<
                        (Seq<char>, nat),
                        Error,
                    >(e),
                },
            decreases self.src().len() - self.cursor(),
        {
            proof {
                self.tokenizer.lemma_wf();
                token::lemma_scan(self.src(), self.cursor());
            }
            let ghost c0 = self.cursor();
            match self.peek_token() {
                Err(token::Error::Eos) => {
                    assert(delta + Seq::<char>::empty() =~= delta);
                    return Ok(());
                },
                Err(e) => {
                    return Err(Error::TokenErr(e));
                },
                Ok(Token::Ampersand) | Ok(Token::VerticalBar) | Ok(Token::Newline) | Ok(
                    Token::Semicolon,
                ) => {
                    assert(delta + Seq::<char>::empty() =~= delta);
                    return Ok(());
                },
                Ok(Token::Spaces { .. }) => {
                    let _ = self.next();
                    assert(delta + Seq::<char>::empty() =~= delta);
                    return Ok(());
                },
                Ok(Token::DoubleQuote) => {
                    let _ = self.next();
                    proof {
                        lemma_dq_advance(self.src(), self.cursor());
                    }
                    match self.double_quoted_string() {
                        Ok(seg) => {
                            let ghost v = seg@;
                            value.append(seg.as_str());
                            proof {
                                let src = self.src();
                                let d0 = delta;
                                delta = d0 + v;
                                assert((old(value)@ + d0) + v =~= old(value)@ + (d0 + v));
                                match spec_word_tail(src, self.cursor()) {
                                    Ok((rest, p4)) => {
                                        assert(spec_word_tail(src, c0) == Ok::<
                                            (Seq<char>, nat),
                                            Error,
                                        >((v + rest, p4)));
                                        assert(d0 + (v + rest) =~= (d0 + v) + rest);
                                    },
                                    Err(e2) => {
                                        assert(spec_word_tail(src, c0) == Err::<
                                            (Seq<char>, nat),
                                            Error,
                                        >(e2));
                                    },
                                }
                            }
                        },
                        Err(e) => {
                            return Err(e);
                        },
                    }
                },
                Ok(t) => {
                    let _ = self.next();
                    self.append_word_text(value, t);
                    proof {
                        let src = self.src();
                        let txt = word_text(src, t);
                        let d0 = delta;
                        delta = d0 + txt;
                        assert((old(value)@ + d0) + txt =~= old(value)@ + (d0 + txt));
                        match spec_word_tail(src, self.cursor()) {
                            Ok((rest, p3)) => {
                                assert(spec_word_tail(src, c0) == Ok::<(Seq<char>, nat), Error>(
                                    (txt + rest, p3),
                                ));
                                assert(d0 + (txt + rest) =~= (d0 + txt) + rest);
                            },
                            Err(e2) => {
                                assert(spec_word_tail(src, c0) == Err::<(Seq<char>, nat), Error>(
                                    e2,
                                ));
                            },
                        }
                    }
                },
            }
        }
    }

    /// Parses one word. `Err(Error::Eos)` signals that no words are left.
    #[verifier::loop_isolation(false)]
    fn next_word(&mut self) -> (r: Result<Word, Error>)
        requires
            old(self).wf(),
        ensures
            final(self).wf(),
            final(self).src() == old(self).src(),
            match spec_next_word(old(self).src(), old(self).cursor()) {
                Ok((w, p)) => r matches Ok(word) && word@ == w && final(self).cursor() == p,
                Err(e) => r == Err::<Word, Error>(e),
            },
    {
        loop
            invariant
                self.wf(),
                self.src() == old(self).src(),
                spec_next_word(old(self).src(), old(self).cursor()) == spec_next_word(
                    self.src(),
                    self.cursor(),
                ),
            decreases self.src().len() - self.cursor(),
        {
            proof {
                self.tokenizer.lemma_wf();
                token::lemma_scan(self.src(), self.cursor());
            }
            let ghost c0 = self.cursor();
            match self.peek_token() {
                Err(token::Error::Eos) => {
                    return Err(Error::Eos);
                },
                Err(e) => {
                    return Err(Error::TokenErr(e));
                },
                Ok(Token::Spaces { .. }) => {
                    let _ = self.next();
                    assert(spec_next_word(self.src(), c0) == spec_next_word(
                        self.src(),
                        self.cursor(),
                    ));
                },
                Ok(Token::Ampersand) => {
                    let _ = self.next();
                    if self.eat_token(Token::Ampersand) {
                        return Ok(Word::And);
                    } else {
                        return Ok(Word::Terminator);
                    }
                },
                Ok(Token::VerticalBar) => {
                    let _ = self.next();
                    if self.eat_token(Token::VerticalBar) {
                        return Ok(Word::Or);
                    } else {
                        return Ok(Word::Pipe);
                    }
                },
                Ok(Token::Newline) | Ok(Token::Semicolon) => {
                    let _ = self.next();
                    return Ok(Word::Terminator);
                },
                Ok(Token::Equal) => {
                    return Err(Error::DanglingEquals);
                },
                Ok(Token::DoubleQuote) => {
                    let _ = self.next();
                    proof {
                        lemma_dq_advance(self.src(), self.cursor());
                    }
                    let mut value = match self.double_quoted_string() {
                        Ok(seg) => seg,
                        Err(e) => {
                            return Err(e);
                        },
                    };
                    match self.word_tail_collect(&mut value) {
                        Ok(_) => {
                            return Ok(Word::String(value));
                        },
                        Err(e) => {
                            return Err(e);
                        },
                    }
                },
                Ok(Token::String { start, end }) => {
                    let _ = self.next();
                    let name_str = self.tokenizer.source().substring_char(start, end);
                    if is_variable_name(name_str) {
                        if self.eat_token(Token::Equal) {
                            match self.value() {
                                Ok(v) => {
                                    return Ok(
                                        Word::Variable(
                                            Variable { name: name_str.to_owned(), value: v },
                                        ),
                                    );
                                },
                                Err(e) => {
                                    return Err(e);
                                },
                            }
                        }
                    }
                    let mut value = String::new();
                    push_unescaped_range(&mut value, self.tokenizer.source(), start, end);
                    assert(value@ =~= unescape(self.src().subrange(start as int, end as int)));
                    match self.word_tail_collect(&mut value) {
                        Ok(_) => {
                            return Ok(Word::String(value));
                        },
                        Err(e) => {
                            return Err(e);
                        },
                    }
                },
                Ok(t) => {
                    let _ = self.next();
                    let mut value = String::new();
                    self.append_word_text(&mut value, t);
                    assert(value@ =~= word_text(self.src(), t));
                    match self.word_tail_collect(&mut value) {
                        Ok(_) => {
                            return Ok(Word::String(value));
                        },
                        Err(e) => {
                            return Err(e);
                        },
                    }
                },
            }
        }
    }


    /// Drains the lexer completely: the whole word sequence of the line,
    /// or the single error that aborts parsing.
    #[verifier::loop_isolation(false)]
    pub fn parse(&mut self) -> (r: Result<Vec<Word>, Error>)
        requires
            old(self).wf(),
        ensures
            final(self).wf(),
            final(self).src() == old(self).src(),
            match spec_parse(old(self).src(), old(self).cursor()) {
                Ok(ws) => r matches Ok(v) && v@.map_values(|w: Word| w@) == ws,
                Err(e) => r == Err::<Vec<Word>, Error>(e),
            },
    {
        let mut words: Vec<Word> = Vec::new();
        loop
            invariant
                self.wf(),
                self.src() == old(self).src(),
                match spec_parse(self.src(), self.cursor()) {
                    Ok(rest) => spec_parse(old(self).src(), old(self).cursor()) == Ok::<
                        Seq<WordView>,
                        Error,
                    >(words@.map_values(|w: Word| w@) + rest),
                    Err(e) => spec_parse(old(self).src(), old(self).cursor()) == Err::<
                        Seq<WordView>,
                        Error,
                    >(e),
                },
            decreases self.src().len() - self.cursor(),
        {
            proof {
                self.tokenizer.lemma_wf();
                lemma_next_word_advance(self.src(), self.cursor());
            }
            let ghost c0 = self.cursor();
            let ghost mapped = words@.map_values(|w: Word| w@);
            match self.next_word() {
                Ok(word) => {
                    let ghost wv = word@;
                    words.push(word);
                    proof {
                        assert(words@.map_values(|w: Word| w@) =~= mapped.push(wv));
                        assert(mapped.push(wv) =~= mapped + seq![wv]);
                        let src = self.src();
                        match spec_parse(src, self.cursor()) {
                            Ok(rest2) => {
                                assert(spec_parse(src, c0) == Ok::<Seq<WordView>, Error>(
                                    seq![wv] + rest2,
                                ));
                                assert(mapped + (seq![wv] + rest2) =~= (mapped + seq![wv])
                                    + rest2);
                            },
                            Err(e2) => {
                                assert(spec_parse(src, c0) == Err::<Seq<WordView>, Error>(e2));
                            },
                        }
                    }
                },
                Err(Error::Eos) => {
                    assert(mapped + Seq::<WordView>::empty() =~= mapped);
                    return Ok(words);
                },
                Err(e) => {
                    return Err(e);
                },
            }
        }
    }
}

} // verus!
