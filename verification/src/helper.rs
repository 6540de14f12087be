//! The front end an editor talks to: it owns the grammar tree and answers
//! for whole lines and for lines in progress.

use crate::completer::{complete_tokens, completion, no_candidates, outcome, Candidate};
use crate::grammar::{Command, Id, Sub};
use crate::parser::{parse_tokens, steps, walk, Error, Token};
use crate::tokenizer::{lex, tokenize};
use std::collections::VecDeque;
use vstd::prelude::*;
use vstd::string::StrSliceExecFns;

verus! {

/// A grammar tree, read by every call and never changed.
pub struct CommandHelper<T: Id, A> {
    subs: Sub<T, A>,
}

impl<T: Id, A> CommandHelper<T, A> {
    /// The root of the tree.
    pub closed spec fn grammar(&self) -> Sub<T, A> {
        self.subs
    }

    /// A front end for the given top-level commands.
    pub fn new(cmds: Vec<Command<T, A>>) -> (helper: Self)
        ensures
            helper.grammar() == Sub::Branch(cmds),
    {
        Self { subs: Sub::Branch(cmds) }
    }

    /// Interprets a whole line: the steps of the walk of the tree against the
    /// tokens of `line`, or an error if `line` does not tokenize.
    pub fn parse<'a>(&'a self, line: &str) -> (result: Result<VecDeque<Token<'a, T, A>>, Error>)
        ensures
            match result {
                Ok(tokens) => lex(line@) matches Some(words) && steps(tokens@) == walk(
                    self.grammar(),
                    words,
                ),
                Err(_) => lex(line@) is None,
            },
    {
        match tokenize(line) {
            Some(tokens) => Ok(parse_tokens(&self.subs, tokens)),
            None => Err(Error::Parse),
        }
    }

    /// Completes the line at the cursor, a character offset: the offset from
    /// which the candidates replace the line, and the candidates.
    pub fn complete(&self, line: &str, pos: usize) -> (result: (usize, Vec<Candidate>))
        requires
            pos <= line@.len(),
        ensures
            outcome(result) == completion(self.grammar(), line@.subrange(0, pos as int)),
    {
        let prefix = line.substring_char(0, pos);
        match tokenize(prefix) {
            Some(tokens) => {
                let spaced = pos > 0 && prefix.get_char(pos - 1) == ' ';
                complete_tokens(&self.subs, tokens, pos, spaced)
            },
            None => no_candidates(),
        }
    }
}

} // verus!
