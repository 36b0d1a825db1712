//! Laws of the parser as a whole, stated over the spec-level model.

use vstd::prelude::*;

use crate::parse;
use crate::parse::Error;
use crate::parse::WordView;
use crate::token;
use crate::token::Token;

verus! {

proof fn lemma_spaces_end_all(s: Seq<char>, i: nat)
    requires
        i <= s.len(),
        forall|k: int| i <= k < s.len() ==> token::is_space(#[trigger] s[k]),
    ensures
        token::spaces_end(s, i) == s.len(),
    decreases s.len() - i,
{
    if i < s.len() {
        lemma_spaces_end_all(s, i + 1);
    }
}

/// A line that is empty or holds only spaces and tabs parses to the empty
/// word sequence.
pub proof fn lemma_blank_line_parses_empty(s: Seq<char>)
    requires
        forall|i: int| 0 <= i < s.len() ==> token::is_space(#[trigger] s[i]),
    ensures
        parse::spec_parse(s, 0) == Ok::<Seq<WordView>, Error>(Seq::<WordView>::empty()),
{
    if s.len() == 0 {
        assert(token::spec_scan(s, 0) == Err::<(token::Token, nat), token::Error>(
            token::Error::Eos,
        ));
        assert(parse::spec_next_word(s, 0) == Err::<(WordView, nat), Error>(Error::Eos));
    } else {
        lemma_spaces_end_all(s, 0);
        assert(token::spec_scan(s, 0) matches Ok(tp) && tp.1 == s.len());
        assert(parse::spec_next_word(s, 0) == parse::spec_next_word(s, s.len()));
        assert(token::spec_scan(s, s.len()) == Err::<(token::Token, nat), token::Error>(
            token::Error::Eos,
        ));
        assert(parse::spec_next_word(s, s.len()) == Err::<(WordView, nat), Error>(Error::Eos));
    }
}

/// No single quote anywhere in `s`: `'` + `s` + `'` then lexes as one
/// quoted token.
pub open spec fn quote_free(s: Seq<char>) -> bool {
    forall|i: int| 0 <= i < s.len() ==> s[i] != '\''
}

/// Whether `w` can be written back with single quotes re-applied: literal
/// text and assignment values must be free of single quotes, and an
/// assignment's name must be a nonempty valid variable name.
pub open spec fn renderable_word(w: WordView) -> bool {
    match w {
        WordView::Str(text) => quote_free(text),
        WordView::Var { name, value } => name.len() > 0 && parse::is_name(name) && quote_free(
            value,
        ),
        _ => true,
    }
}

/// One word written back as text: literal text and assignment values in
/// single quotes, control operators by their symbols.
pub open spec fn render_word(w: WordView) -> Seq<char> {
    match w {
        WordView::And => seq!['&', '&'],
        WordView::Or => seq!['|', '|'],
        WordView::Pipe => seq!['|'],
        WordView::Terminator => seq![';'],
        WordView::Str(text) => seq!['\''] + text + seq!['\''],
        WordView::Var { name, value } => name + seq!['='] + seq!['\''] + value + seq!['\''],
    }
}

/// A word sequence written back as one line, with single spaces between
/// words.
pub open spec fn render(ws: Seq<WordView>) -> Seq<char>
    decreases ws.len(),
{
    if ws.len() == 0 {
        Seq::empty()
    } else if ws.len() == 1 {
        render_word(ws[0])
    } else {
        render_word(ws[0]) + seq![' '] + render(ws.drop_first())
    }
}

proof fn lemma_close_quote_at(s: Seq<char>, i: nat, j: nat)
    requires
        i <= j < s.len(),
        s[j as int] == '\'',
        forall|k: int| i <= k < j ==> s[k] != '\'',
    ensures
        token::close_quote(s, i) == Some(j),
    decreases j - i,
{
    if i < j {
        lemma_close_quote_at(s, i + 1, j);
    }
}

proof fn lemma_raw_name_end(s: Seq<char>, i: nat, e: nat)
    requires
        i <= e <= s.len(),
        forall|k: int| i <= k < e ==> parse::plain_char(#[trigger] s[k]),
        e < s.len() ==> token::is_space(s[e as int]) || token::is_reserved(s[e as int]) || s[
            e as int
        ] == '\'',
    ensures
        token::raw_end(s, i) == Ok::<nat, token::Error>(e),
    decreases e - i,
{
    if i < e {
        lemma_raw_name_end(s, i + 1, e);
    }
}

/// A rendered word sequence is nonempty and never starts with whitespace.
proof fn lemma_render_head(ws: Seq<WordView>)
    requires
        ws.len() > 0,
        renderable_word(ws[0]),
    ensures
        render(ws).len() > 0,
        !token::is_space(render(ws)[0]),
{
    let rw = render_word(ws[0]);
    match ws[0] {
        WordView::Var { name, value } => {
            assert(parse::is_name_char(name[0], 0));
            assert(rw[0] == name[0]);
        },
        _ => (),
    }
    if ws.len() > 1 {
        assert(render(ws)[0] == rw[0]);
    }
}

proof fn lemma_scan_op(s: Seq<char>, pos: nat, c: char, t: Token)
    requires
        pos < s.len(),
        s[pos as int] == c,
        token::op_of(c) == Some(t),
        c != '\'',
        !token::is_space(c),
    ensures
        token::spec_scan(s, pos) == Ok::<(Token, nat), token::Error>((t, (pos + 1) as nat)),
{
}

proof fn lemma_scan_quoted(s: Seq<char>, pos: nat, content: Seq<char>)
    requires
        s.len() <= usize::MAX,
        pos < s.len(),
        s[pos as int] == '\'',
        pos + content.len() + 2 <= s.len(),
        forall|i: int| 0 <= i < content.len() ==> s[pos + 1 + i] == #[trigger] content[i],
        quote_free(content),
        s[(pos + content.len() + 1) as int] == '\'',
    ensures
        token::spec_scan(s, pos) == Ok::<(Token, nat), token::Error>(
            (
                Token::QuotedString {
                    start: (pos + 1) as usize,
                    end: (pos + 1 + content.len()) as usize,
                },
                pos + content.len() + 2,
            ),
        ),
        s.subrange((pos + 1) as int, (pos + 1 + content.len()) as int) == content,
{
    let j = (pos + 1 + content.len()) as nat;
    assert forall|k: int| pos + 1 <= k < j implies s[k] != '\'' by {
        assert(s[k] == content[k - (pos + 1)]);
    }
    lemma_close_quote_at(s, pos + 1, j);
    assert(s.subrange((pos + 1) as int, j as int) =~= content);
}

proof fn lemma_scan_raw_name(s: Seq<char>, pos: nat, name: Seq<char>)
    requires
        s.len() <= usize::MAX,
        name.len() > 0,
        parse::is_name(name),
        pos + name.len() <= s.len(),
        forall|i: int| 0 <= i < name.len() ==> s[pos + i] == #[trigger] name[i],
        pos + name.len() < s.len() ==> token::is_space(s[(pos + name.len()) as int])
            || token::is_reserved(s[(pos + name.len()) as int]) || s[(pos + name.len()) as int]
            == '\'',
    ensures
        token::spec_scan(s, pos) == Ok::<(Token, nat), token::Error>(
            (
                Token::String { start: pos as usize, end: (pos + name.len()) as usize },
                pos + name.len(),
            ),
        ),
        s.subrange(pos as int, (pos + name.len()) as int) == name,
{
    let e = (pos + name.len()) as nat;
    assert forall|k: int| pos <= k < e implies parse::plain_char(#[trigger] s[k]) by {
        assert(parse::is_name_char(name[k - pos], k - pos));
        assert(s[k] == name[k - pos]);
    }
    lemma_raw_name_end(s, pos, e);
    assert(parse::is_name_char(name[0], 0));
    assert(parse::plain_char(s[pos as int]));
    token::lemma_reserved_op(s[pos as int]);
    assert(s.subrange(pos as int, e as int) =~= name);
}

/// Drops a leading block from a known suffix decomposition.
proof fn lemma_skip_drop(s: Seq<char>, pos: nat, a: Seq<char>, b: Seq<char>)
    requires
        pos <= s.len(),
        s.skip(pos as int) == a + b,
    ensures
        pos + a.len() <= s.len(),
        s.skip((pos + a.len()) as int) == b,
{
    broadcast use vstd::seq_lib::group_seq_properties;

    assert(s.skip(pos as int).len() == s.len() - pos);
    assert(s.skip((pos + a.len()) as int) =~= b) by {
        assert forall|i: int|
            0 <= i < s.len() - (pos + a.len()) implies s.skip((pos + a.len()) as int)[i] == b[i] by {
            assert(s.skip(pos as int)[a.len() + i] == (a + b)[a.len() + i]);
        }
    }
}

/// Parsing a plain-text word written back in single quotes: the quoted
/// token, then the word tail, which consumes at most one separating space.
proof fn lemma_render_str(s: Seq<char>, pos: nat, text: Seq<char>, tail_len: nat) -> (p2: nat)
    requires
        s.len() <= usize::MAX,
        pos <= s.len(),
        quote_free(text),
        pos + text.len() + 2 + tail_len <= s.len(),
        s[pos as int] == '\'',
        forall|i: int| 0 <= i < text.len() ==> s[pos + 1 + i] == #[trigger] text[i],
        s[(pos + text.len() + 1) as int] == '\'',
        tail_len == 0 ==> pos + text.len() + 2 == s.len(),
        tail_len > 0 ==> pos + text.len() + 2 < s.len() && s[(pos + text.len() + 2) as int] == ' '
            && (pos + text.len() + 3 < s.len() ==> !token::is_space(
            s[(pos + text.len() + 3) as int],
        )),
    ensures
        parse::spec_next_word(s, pos) == Ok::<(WordView, nat), Error>((WordView::Str(text), p2)),
        tail_len == 0 ==> p2 == pos + text.len() + 2,
        tail_len > 0 ==> p2 == pos + text.len() + 3,
{
    let n = text.len() as int;
    lemma_scan_quoted(s, pos, text);
    let tok = Token::QuotedString { start: (pos + 1) as usize, end: (pos + 1 + n) as usize };
    let q2 = (pos + n + 2) as nat;
    assert(parse::word_text(s, tok) == text);
    if tail_len == 0 {
        assert(q2 == s.len());
        assert(parse::spec_word_tail(s, q2) == Ok::<(Seq<char>, nat), Error>((Seq::empty(), q2)));
        assert(text + Seq::<char>::empty() =~= text);
        assert(parse::spec_next_word(s, pos) == Ok::<(WordView, nat), Error>(
            (WordView::Str(text), q2),
        ));
        q2
    } else {
        let p2 = (q2 + 1) as nat;
        assert(token::spaces_end(s, p2) == p2);
        assert(token::spaces_end(s, q2) == p2);
        assert(token::spec_scan(s, q2) == Ok::<(Token, nat), token::Error>(
            (Token::Spaces { start: q2 as usize, end: p2 as usize }, p2),
        ));
        assert(parse::spec_word_tail(s, q2) == Ok::<(Seq<char>, nat), Error>((Seq::empty(), p2)));
        assert(text + Seq::<char>::empty() =~= text);
        assert(parse::spec_next_word(s, pos) == Ok::<(WordView, nat), Error>(
            (WordView::Str(text), p2),
        ));
        p2
    }
}

/// Parsing an assignment written back as `name='value'`: the name token,
/// the `=`, then the quoted value, before which the scan of the value
/// stops at the separating space without consuming it.
proof fn lemma_render_var(s: Seq<char>, pos: nat, name: Seq<char>, value: Seq<char>) -> (p2: nat)
    requires
        s.len() <= usize::MAX,
        pos <= s.len(),
        name.len() > 0,
        parse::is_name(name),
        quote_free(value),
        pos + name.len() + value.len() + 3 <= s.len(),
        forall|i: int| 0 <= i < name.len() ==> s[pos + i] == #[trigger] name[i],
        s[(pos + name.len()) as int] == '=',
        s[(pos + name.len() + 1) as int] == '\'',
        forall|i: int|
            0 <= i < value.len() ==> s[(pos + name.len() + 2) + i] == #[trigger] value[i],
        s[(pos + name.len() + value.len() + 2) as int] == '\'',
        pos + name.len() + value.len() + 3 < s.len() ==> s[(pos + name.len() + value.len()
            + 3) as int] == ' ',
    ensures
        parse::spec_next_word(s, pos) == Ok::<(WordView, nat), Error>(
            (WordView::Var { name: name, value: value }, p2),
        ),
        p2 == pos + name.len() + value.len() + 3,
{
    let nl = name.len() as int;
    let vl = value.len() as int;
    lemma_scan_raw_name(s, pos, name);
    lemma_scan_op(s, (pos + nl) as nat, '=', Token::Equal);
    let qpos = (pos + nl + 1) as nat;
    lemma_scan_quoted(s, qpos, value);
    let vtok = Token::QuotedString { start: (qpos + 1) as usize, end: (qpos + 1 + vl) as usize };
    let p2 = (qpos + vl + 2) as nat;
    assert(parse::word_text(s, vtok) == value);
    if p2 == s.len() {
        assert(parse::spec_value(s, p2) == Ok::<(Seq<char>, nat), Error>((Seq::empty(), p2)));
    } else {
        assert(s[p2 as int] == ' ');
        assert(match token::spec_scan(s, p2) {
            Ok((t2, _)) => t2 is Spaces,
            _ => false,
        });
        assert(parse::spec_value(s, p2) == Ok::<(Seq<char>, nat), Error>((Seq::empty(), p2)));
    }
    assert(value + Seq::<char>::empty() =~= value);
    assert(parse::spec_value(s, qpos) == Ok::<(Seq<char>, nat), Error>((value, p2)));
    assert(parse::spec_next_word(s, pos) == Ok::<(WordView, nat), Error>(
        (WordView::Var { name: name, value: value }, p2),
    ));
    p2
}

/// The character-level facts of a suffix that renders `w` (with text
/// `rw`) and then `rest`, separated by one space.
proof fn lemma_suffix_facts(s: Seq<char>, pos: nat, rw: Seq<char>, rest: Seq<WordView>)
    requires
        pos <= s.len(),
        rest.len() > 0 ==> renderable_word(rest[0]),
        rest.len() == 0 ==> s.skip(pos as int) == rw,
        rest.len() > 0 ==> s.skip(pos as int) == rw + seq![' '] + render(rest),
    ensures
        pos + rw.len() <= s.len(),
        forall|i: int| 0 <= i < rw.len() ==> s[pos + i] == #[trigger] rw[i],
        rest.len() == 0 ==> pos + rw.len() == s.len(),
        rest.len() > 0 ==> pos + rw.len() < s.len() && s[(pos + rw.len()) as int] == ' '
            && s.skip((pos + rw.len()) as int) == seq![' '] + render(rest) && s.skip(
            (pos + rw.len() + 1) as int,
        ) == render(rest) && (pos + rw.len() + 1 < s.len() ==> !token::is_space(
            s[(pos + rw.len() + 1) as int],
        )),
{
    broadcast use vstd::seq_lib::group_seq_properties;

    let suffix = if rest.len() == 0 {
        rw
    } else {
        rw + seq![' '] + render(rest)
    };
    assert(s.skip(pos as int) == suffix);
    assert(suffix.len() == s.len() - pos);
    assert forall|i: int| 0 <= i < suffix.len() implies s[pos + i] == #[trigger] suffix[i] by {
        assert(s.skip(pos as int)[i] == s[pos + i]);
    }
    assert forall|i: int| 0 <= i < rw.len() implies s[pos + i] == #[trigger] rw[i] by {
        assert(suffix[i] == rw[i]);
    }
    if rest.len() > 0 {
        lemma_render_head(rest);
        assert(suffix =~= (rw + seq![' ']) + render(rest));
        lemma_skip_drop(s, pos, rw + seq![' '], render(rest));
        assert(suffix =~= rw + (seq![' '] + render(rest)));
        lemma_skip_drop(s, pos, rw, seq![' '] + render(rest));
        assert(suffix[rw.len() as int] == ' ');
        if pos + rw.len() + 1 < s.len() {
            assert(suffix[rw.len() + 1 as int] == render(rest)[0]);
        }
    }
}

/// Parsing one word out of a rendered sequence yields that word, leaving a
/// suffix that is the rendering of the remaining words, possibly behind
/// one separating space.
proof fn lemma_next_word_render(s: Seq<char>, pos: nat, w: WordView, rest: Seq<WordView>) -> (p2:
    nat)
    requires
        s.len() <= usize::MAX,
        pos <= s.len(),
        renderable_word(w),
        rest.len() > 0 ==> renderable_word(rest[0]),
        rest.len() == 0 ==> s.skip(pos as int) == render_word(w),
        rest.len() > 0 ==> s.skip(pos as int) == render_word(w) + seq![' '] + render(rest),
    ensures
        parse::spec_next_word(s, pos) == Ok::<(WordView, nat), Error>((w, p2)),
        rest.len() == 0 ==> p2 == s.len(),
        rest.len() > 0 ==> p2 <= s.len() && (s.skip(p2 as int) == render(rest) || s.skip(
            p2 as int,
        ) == seq![' '] + render(rest)),
{
    let rw = render_word(w);
    lemma_suffix_facts(s, pos, rw, rest);
    match w {
        WordView::And => {
            assert(rw[0] == '&' && rw[1] == '&');
            lemma_scan_op(s, pos, '&', Token::Ampersand);
            lemma_scan_op(s, pos + 1, '&', Token::Ampersand);
            let p2 = (pos + 2) as nat;
            assert(parse::spec_next_word(s, pos) == Ok::<(WordView, nat), Error>((w, p2)));
            p2
        },
        WordView::Or => {
            assert(rw[0] == '|' && rw[1] == '|');
            lemma_scan_op(s, pos, '|', Token::VerticalBar);
            lemma_scan_op(s, pos + 1, '|', Token::VerticalBar);
            let p2 = (pos + 2) as nat;
            assert(parse::spec_next_word(s, pos) == Ok::<(WordView, nat), Error>((w, p2)));
            p2
        },
        WordView::Pipe => {
            assert(rw[0] == '|');
            lemma_scan_op(s, pos, '|', Token::VerticalBar);
            let p2 = (pos + 1) as nat;
            if rest.len() == 0 {
                assert(token::spec_scan(s, p2) == Err::<(Token, nat), token::Error>(
                    token::Error::Eos,
                ));
            } else {
                assert(s[p2 as int] == ' ');
                assert(match token::spec_scan(s, p2) {
                    Ok((t2, _)) => t2 is Spaces,
                    _ => false,
                });
            }
            assert(parse::spec_next_word(s, pos) == Ok::<(WordView, nat), Error>((w, p2)));
            p2
        },
        WordView::Terminator => {
            assert(rw[0] == ';');
            lemma_scan_op(s, pos, ';', Token::Semicolon);
            let p2 = (pos + 1) as nat;
            assert(parse::spec_next_word(s, pos) == Ok::<(WordView, nat), Error>((w, p2)));
            p2
        },
        WordView::Str(text) => {
            let n = text.len() as int;
            assert(rw[0] == '\'');
            assert forall|i: int| 0 <= i < n implies s[pos + 1 + i] == #[trigger] text[i] by {
                assert(rw[1 + i] == text[i]);
                assert(s[pos + (1 + i)] == rw[1 + i]);
            }
            assert(rw[n + 1] == '\'');
            assert(s[(pos + n + 1) as int] == '\'');
            let tail_len: nat = if rest.len() == 0 {
                0nat
            } else {
                (s.len() - (pos + rw.len())) as nat
            };
            let p2 = lemma_render_str(s, pos, text, tail_len);
            p2
        },
        WordView::Var { name, value } => {
            let nl = name.len() as int;
            let vl = value.len() as int;
            assert(rw =~= name + (seq!['='] + (seq!['\''] + (value + seq!['\'']))));
            assert forall|i: int| 0 <= i < nl implies s[pos + i] == #[trigger] name[i] by {
                assert(rw[i] == name[i]);
            }
            assert(rw[nl] == '=');
            assert(s[(pos + nl) as int] == '=');
            assert(rw[nl + 1] == '\'');
            assert(s[(pos + nl + 1) as int] == '\'');
            assert forall|i: int|
                0 <= i < vl implies s[(pos + nl + 2) + i] == #[trigger] value[i] by {
                assert(rw[nl + 2 + i] == value[i]);
                assert(s[pos + (nl + 2 + i)] == rw[nl + 2 + i]);
            }
            assert(rw[nl + vl + 2] == '\'');
            assert(s[(pos + nl + vl + 2) as int] == '\'');
            let p2 = lemma_render_var(s, pos, name, value);
            p2
        },
    }
}

/// Parsing a suffix that is a rendered word sequence, possibly behind one
/// leading space, yields exactly that sequence.
proof fn lemma_parse_render_suffix(s: Seq<char>, pos: nat, ws: Seq<WordView>)
    requires
        s.len() <= usize::MAX,
        pos <= s.len(),
        forall|i: int| 0 <= i < ws.len() ==> renderable_word(#[trigger] ws[i]),
        s.skip(pos as int) == render(ws) || s.skip(pos as int) == seq![' '] + render(ws),
    ensures
        parse::spec_parse(s, pos) == Ok::<Seq<WordView>, Error>(ws),
    decreases s.len() - pos,
{
    broadcast use vstd::seq_lib::group_seq_properties;

    assert(s.skip(pos as int).len() == s.len() - pos);
    if s.skip(pos as int) == seq![' '] + render(ws) {
        // skip the separating space, then parse the rendering proper
        assert(s[pos as int] == ' ') by {
            assert(s.skip(pos as int)[0] == ' ');
        }
        let p1 = (pos + 1) as nat;
        if ws.len() > 0 {
            lemma_render_head(ws);
            assert(s[p1 as int] == render(ws)[0]) by {
                assert(s.skip(pos as int)[1] == render(ws)[0]);
            }
        }
        assert(token::spaces_end(s, p1) == p1);
        assert(token::spaces_end(s, pos) == p1);
        assert(token::spec_scan(s, pos) == Ok::<(Token, nat), token::Error>(
            (Token::Spaces { start: pos as usize, end: p1 as usize }, p1),
        ));
        assert(s.skip(p1 as int) =~= render(ws)) by {
            lemma_skip_drop(s, pos, seq![' '], render(ws));
        }
        lemma_parse_render_suffix(s, p1, ws);
        assert(parse::spec_next_word(s, pos) == parse::spec_next_word(s, p1));
        assert(parse::spec_parse(s, pos) == parse::spec_parse(s, p1));
    } else if ws.len() == 0 {
        assert(pos == s.len());
        assert(token::spec_scan(s, pos) == Err::<(Token, nat), token::Error>(token::Error::Eos));
        assert(parse::spec_next_word(s, pos) == Err::<(WordView, nat), Error>(Error::Eos));
    } else {
        let w = ws[0];
        let rest = ws.drop_first();
        if ws.len() == 1 {
            assert(rest.len() == 0);
            assert(s.skip(pos as int) == render_word(w));
        } else {
            assert(rest.len() > 0);
            assert(render(ws) == render_word(w) + seq![' '] + render(rest));
            assert(rest[0] == ws[1]);
        }
        let p2 = lemma_next_word_render(s, pos, w, rest);
        parse::lemma_next_word_advance(s, pos);
        assert forall|i: int| 0 <= i < rest.len() implies renderable_word(#[trigger] rest[i]) by {
            assert(rest[i] == ws[i + 1]);
        }
        if rest.len() == 0 {
            assert(s.skip(p2 as int) =~= render(rest));
        }
        lemma_parse_render_suffix(s, p2, rest);
        assert(seq![w] + rest =~= ws);
    }
}

/// Round-trip idempotence: writing a parsed word sequence back out, with
/// single quotes re-applied around each word's literal text, and parsing
/// the result yields the same word sequence.
pub proof fn lemma_requote_round_trip(ws: Seq<WordView>)
    requires
        forall|i: int| 0 <= i < ws.len() ==> renderable_word(#[trigger] ws[i]),
        render(ws).len() <= usize::MAX,
    ensures
        parse::spec_parse(render(ws), 0) == Ok::<Seq<WordView>, Error>(ws),
{
    broadcast use vstd::seq_lib::group_seq_properties;

    let s = render(ws);
    assert(s.skip(0) =~= s);
    lemma_parse_render_suffix(s, 0, ws);
}

} // verus!
