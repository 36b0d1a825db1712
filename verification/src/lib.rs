//! A shell-syntax lexer and word parser for command-history lines.
//!
//! One raw history line is turned into a sequence of words: plain text
//! (quotes stripped, escapes resolved), `name=value` variable assignments,
//! and the control operators `&&`, `||`, `|` and `;`/newline. A caller can
//! then pick out the command name of each pipeline segment.

use vstd::prelude::*;

pub mod laws;
pub mod parse;
pub mod token;

verus! {

use crate::parse::{Parser, Word, WordView};

/// The command names of a parsed word sequence: the first plain word of each
/// pipeline segment, where segments are separated by control operators.
/// Assignments before the command name are skipped without claiming the slot.
pub open spec fn spec_command_names(ws: Seq<WordView>, at_start: bool) -> Seq<Seq<char>>
    decreases ws.len(),
{
    if ws.len() == 0 {
        Seq::empty()
    } else {
        let rest = ws.drop_first();
        match ws[0] {
            WordView::Str(s) => {
                if at_start {
                    seq![s] + spec_command_names(rest, false)
                } else {
                    spec_command_names(rest, false)
                }
            },
            WordView::Var { name, value } => spec_command_names(rest, at_start),
            _ => spec_command_names(rest, true),
        }
    }
}

/// Parses one history line and extracts the command name of every pipeline
/// segment; a line that does not parse yields `None`.
pub fn extract_command_names(s: &str) -> (r: Option<Vec<String>>)
    ensures
        match crate::parse::spec_parse(s@, 0) {
            Ok(ws) => {
                &&& r is Some
                &&& r->0@.map_values(|c: String| c@) == spec_command_names(ws, true)
            },
            Err(_) => r is None,
        },
{
    let mut parser = Parser::new(s);
    let words = match parser.parse() {
        Ok(words) => words,
        Err(_) => {
            return None;
        },
    };
    let ghost ws = words@.map_values(|w: Word| w@);
    let mut commands: Vec<String> = Vec::new();
    let mut at_start = true;
    let mut i: usize = 0;
    proof {
        assert(ws.skip(0) =~= ws);
        assert(commands@.map_values(|c: String| c@) =~= Seq::<Seq<char>>::empty());
        assert(Seq::<Seq<char>>::empty() + spec_command_names(ws, true) =~= spec_command_names(
            ws,
            true,
        ));
    }
    while i < words.len()
        invariant
            i <= words.len(),
            ws == words@.map_values(|w: Word| w@),
            spec_command_names(ws, true) == commands@.map_values(|c: String| c@)
                + spec_command_names(ws.skip(i as int), at_start),
        decreases words.len() - i,
    {
        assert(ws.skip(i as int).drop_first() =~= ws.skip(i + 1));
        assert(ws.skip(i as int)[0] == ws[i as int]);
        match &words[i] {
            Word::String(command) => {
                if at_start {
                    let ghost old_commands = commands@.map_values(|c: String| c@);
                    commands.push(command.clone());
                    proof {
                        assert(commands@.map_values(|c: String| c@) =~= old_commands + seq![
                            command@,
                        ]);
                        assert(old_commands + (seq![command@] + spec_command_names(
                            ws.skip(i + 1),
                            false,
                        )) =~= (old_commands + seq![command@]) + spec_command_names(
                            ws.skip(i + 1),
                            false,
                        ));
                    }
                    at_start = false;
                } else {
                    at_start = false;
                }
            },
            Word::And | Word::Or | Word::Pipe | Word::Terminator => {
                at_start = true;
            },
            Word::Variable(_) => {},
        }
        i = i + 1;
    }
    proof {
        assert(ws.skip(words@.len() as int) =~= Seq::<WordView>::empty());
        assert(spec_command_names(Seq::<WordView>::empty(), at_start) == Seq::<Seq<char>>::empty());
        assert(commands@.map_values(|c: String| c@) + Seq::<Seq<char>>::empty()
            =~= commands@.map_values(|c: String| c@));
    }
    Some(commands)
}

} // verus!
