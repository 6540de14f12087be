//! Completion candidates for a line that is still being typed.

use crate::grammar::{Command, Id, Param, Sub};
use crate::parser::position;
use crate::tokenizer::{
    lemma_lex_from_placed, lemma_lexemes_drop_first, lex, lexemes, placed, Lexeme,
};
use std::collections::VecDeque;
use vstd::prelude::*;
use vstd::std_specs::iter::IteratorSpec;

verus! {

/// A suggested continuation, as a mathematical value.
pub struct Suggestion {
    pub display: Seq<char>,
    pub replacement: Seq<char>,
}

/// A suggested continuation: what to show, and what to put into the line.
#[derive(Debug, PartialEq, Eq)]
pub struct Candidate {
    pub display: String,
    pub replacement: String,
}

impl View for Candidate {
    type V = Suggestion;

    open spec fn view(&self) -> Suggestion {
        Suggestion { display: self.display@, replacement: self.replacement@ }
    }
}

/// The views of a sequence of candidates, in order.
pub open spec fn suggestions(candidates: Seq<Candidate>) -> Seq<Suggestion> {
    candidates.map_values(|c: Candidate| c@)
}

/// Whether `text` begins with `start`.
pub fn starts_with(text: &str, start: &str) -> (result: bool)
    ensures
        result == start@.is_prefix_of(text@),
{
    let mut rest = text.chars();
    let mut wanted = start.chars();
    let ghost mut i: int = 0;
    loop
        invariant
            0 <= i <= text@.len(),
            i <= start@.len(),
            rest.remaining() == text@.skip(i),
            wanted.remaining() == start@.skip(i),
            text@.take(i) == start@.take(i),
        decreases start@.len() - i,
    {
        match wanted.next() {
            None => {
                assert(start@ =~= start@.take(i));
                assert(start@ =~= text@.subrange(0, i));
                return true;
            },
            Some(expected) => {
                assert(expected == start@[i]);
                match rest.next() {
                    None => {
                        return false;
                    },
                    Some(found) => {
                        assert(found == text@[i]);
                        if found != expected {
                            assert(start@.is_prefix_of(text@) ==> text@[i] == start@[i]);
                            return false;
                        }
                    },
                }
            },
        }
        proof {
            assert(text@.take(i + 1) =~= start@.take(i + 1)) by {
                assert(text@.take(i + 1) =~= text@.take(i).push(text@[i]));
                assert(start@.take(i + 1) =~= start@.take(i).push(start@[i]));
            }
            assert(text@.skip(i).drop_first() =~= text@.skip(i + 1));
            assert(start@.skip(i).drop_first() =~= start@.skip(i + 1));
            i = i + 1;
        }
    }
}

/// The candidate that completes a word to `name` and leaves a space after it.
pub open spec fn offer(name: Seq<char>) -> Suggestion {
    Suggestion { display: name, replacement: name.push(' ') }
}

/// The candidate that stands for a free parameter: its description between
/// angle brackets and a space, shown and inserted alike.
pub open spec fn placeholder(description: Seq<char>) -> Suggestion {
    let text = seq!['<'] + description + seq!['>', ' '];
    Suggestion { display: text, replacement: text }
}

/// A candidate for each of `names` that begins with `typed`, in order.
pub open spec fn offers(names: Seq<Seq<char>>, typed: Seq<char>) -> Seq<Suggestion> {
    names.filter(|name: Seq<char>| typed.is_prefix_of(name)).map_values(|name: Seq<char>| offer(name))
}

/// The names of `commands`, in order.
pub open spec fn command_names<T: Id, A>(commands: Seq<Command<T, A>>) -> Seq<Seq<char>> {
    commands.map_values(|c: Command<T, A>| c.name@)
}

/// What a completion yields: the offset from which the line is replaced, and
/// the candidates, which all replace the same span.
pub struct Completion {
    pub start: int,
    pub candidates: Seq<Suggestion>,
}

/// No candidate.
pub open spec fn nothing() -> Completion {
    Completion { start: 0, candidates: Seq::empty() }
}

/// The completion at a parameter list.
///
/// A free parameter that has its word is passed over; so is a boolean
/// parameter whose word is one of its two spellings and lies wholly before
/// the cursor. The first free parameter without a word is the place to
/// complete if a space was typed last; a boolean parameter is completed to
/// the spellings that begin with its word, or to both if it has no word.
pub open spec fn propose_fields(fields: Seq<Param>, words: Seq<Lexeme>, cursor: int, spaced: bool)
    -> Completion
    decreases fields.len(),
{
    if fields.len() == 0 {
        nothing()
    } else {
        match fields[0] {
            Param::String(description) => if words.len() == 0 {
                if spaced {
                    Completion { start: cursor, candidates: seq![placeholder(description@)] }
                } else {
                    nothing()
                }
            } else {
                propose_fields(fields.drop_first(), words.drop_first(), cursor, spaced)
            },
            Param::Bool(yes, no) => if words.len() == 0 {
                Completion { start: cursor, candidates: seq![offer(yes@), offer(no@)] }
            } else if words[0].quoted {
                nothing()
            } else if (words[0].text == yes@ || words[0].text == no@) && words[0].end < cursor {
                propose_fields(fields.drop_first(), words.drop_first(), cursor, spaced)
            } else {
                let candidates = offers(seq![yes@, no@], words[0].text);
                Completion { start: if candidates.len() > 0 { words[0].begin } else { 0 }, candidates }
            },
        }
    }
}

/// The completion from `sub` on, for the words before the cursor.
///
/// At a branch, a word that lies wholly before the cursor and names a
/// sub-command leads below it. Otherwise the last word is completed to the
/// sub-commands whose names begin with it, and with no word at all every
/// sub-command is offered at the cursor. A quoted word, or a word that is not
/// the last and names nothing, ends the completion with no candidate.
pub open spec fn propose<T: Id, A>(sub: Sub<T, A>, words: Seq<Lexeme>, cursor: int, spaced: bool)
    -> Completion
    decreases words.len(),
{
    match sub {
        Sub::Branch(commands) => if words.len() == 0 {
            Completion { start: cursor, candidates: offers(command_names(commands@), Seq::empty()) }
        } else if words[0].quoted {
            nothing()
        } else {
            let k = position(commands@, words[0], 0);
            if words[0].end < cursor && 0 <= k < commands@.len() {
                propose(commands@[k].sub, words.drop_first(), cursor, spaced)
            } else if words.len() == 1 {
                Completion {
                    start: words[0].begin,
                    candidates: offers(command_names(commands@), words[0].text),
                }
            } else {
                nothing()
            }
        },
        Sub::Params(fields, _) => propose_fields(fields@, words, cursor, spaced),
        Sub::Terminal(_) => nothing(),
    }
}

/// The completion for the part of a line that lies before the cursor: none
/// if that part does not tokenize.
pub open spec fn completion<T: Id, A>(root: Sub<T, A>, prefix: Seq<char>) -> Completion {
    match lex(prefix) {
        Some(words) => propose(
            root,
            words,
            prefix.len() as int,
            prefix.len() > 0 && prefix.last() == ' ',
        ),
        None => nothing(),
    }
}

proof fn lemma_fields_start(fields: Seq<Param>, words: Seq<Lexeme>, cursor: int, spaced: bool)
    requires
        0 <= cursor,
        forall|i: int| 0 <= i < words.len() ==> 0 <= (#[trigger] words[i]).begin <= cursor,
    ensures
        0 <= propose_fields(fields, words, cursor, spaced).start <= cursor,
    decreases fields.len(),
{
    if fields.len() > 0 && words.len() > 0 {
        assert(0 <= words[0].begin <= cursor);
        assert forall|i: int| 0 <= i < words.drop_first().len() implies 0 <= (
        #[trigger] words.drop_first()[i]).begin <= cursor by {
            assert(words.drop_first()[i] == words[i + 1]);
        }
        lemma_fields_start(fields.drop_first(), words.drop_first(), cursor, spaced);
    }
}

proof fn lemma_propose_start<T: Id, A>(sub: Sub<T, A>, words: Seq<Lexeme>, cursor: int, spaced: bool)
    requires
        0 <= cursor,
        forall|i: int| 0 <= i < words.len() ==> 0 <= (#[trigger] words[i]).begin <= cursor,
    ensures
        0 <= propose(sub, words, cursor, spaced).start <= cursor,
    decreases words.len(),
{
    match sub {
        Sub::Branch(commands) => {
            if words.len() > 0 {
                assert(0 <= words[0].begin <= cursor);
                let k = position(commands@, words[0], 0);
                if 0 <= k < commands@.len() {
                    assert forall|i: int| 0 <= i < words.drop_first().len() implies 0 <= (
                    #[trigger] words.drop_first()[i]).begin <= cursor by {
                        assert(words.drop_first()[i] == words[i + 1]);
                    }
                    lemma_propose_start(commands@[k].sub, words.drop_first(), cursor, spaced);
                }
            }
        },
        Sub::Params(fields, _) => {
            lemma_fields_start(fields@, words, cursor, spaced);
        },
        Sub::Terminal(_) => {},
    }
}

/// The candidates of a completion replace a part of the line that ends at the
/// cursor: the offset they start at lies in the line, at or before the
/// cursor.
pub proof fn lemma_completion_starts_before_cursor<T: Id, A>(root: Sub<T, A>, prefix: Seq<char>)
    ensures
        0 <= completion(root, prefix).start <= prefix.len(),
{
    if let Some(words) = lex(prefix) {
        lemma_lex_from_placed(prefix, 0);
        assert forall|i: int| 0 <= i < words.len() implies 0 <= (#[trigger] words[i]).begin
            <= prefix.len() by {
            assert(placed(prefix, words[i]));
        }
        lemma_propose_start(
            root,
            words,
            prefix.len() as int,
            prefix.len() > 0 && prefix.last() == ' ',
        );
    }
}

/// The candidate that completes a word to `name`.
fn candidate(name: String) -> (result: Candidate)
    ensures
        result@ == offer(name@),
{
    proof {
        reveal_strlit(" ");
    }
    let replacement = name.clone().concat(" ");
    assert(replacement@ =~= name@.push(' '));
    Candidate { display: name, replacement }
}

/// The candidate that stands for a free parameter.
fn describe(description: &String) -> (result: Candidate)
    ensures
        result@ == placeholder(description@),
{
    proof {
        reveal_strlit("<");
        reveal_strlit("> ");
    }
    let mut text = String::from_str("<");
    text.append(description.as_str());
    text.append("> ");
    assert(text@ =~= seq!['<'] + description@ + seq!['>', ' ']);
    Candidate { display: text.clone(), replacement: text }
}

proof fn lemma_offers_push(names: Seq<Seq<char>>, name: Seq<char>, typed: Seq<char>)
    ensures
        offers(names.push(name), typed) == if typed.is_prefix_of(name) {
            offers(names, typed).push(offer(name))
        } else {
            offers(names, typed)
        },
{
    let begins = |name: Seq<char>| typed.is_prefix_of(name);
    names.lemma_filter_push(name, begins);
    if typed.is_prefix_of(name) {
        assert(offers(names.push(name), typed) =~= offers(names, typed).push(offer(name)));
    }
}

proof fn lemma_offers_empty(typed: Seq<char>)
    ensures
        offers(Seq::empty(), typed) == Seq::<Suggestion>::empty(),
{
    reveal(Seq::filter);
    assert(offers(Seq::empty(), typed) =~= Seq::<Suggestion>::empty());
}

proof fn lemma_suggestions_push(done: Seq<Candidate>, next: Candidate)
    ensures
        suggestions(done.push(next)) == suggestions(done).push(next@),
{
    assert(suggestions(done.push(next)) =~= suggestions(done).push(next@));
}

/// A candidate for each of `commands` whose name begins with `typed`.
fn offer_commands<T: Id, A>(commands: &Vec<Command<T, A>>, typed: &str) -> (result: Vec<Candidate>)
    ensures
        suggestions(result@) == offers(command_names(commands@), typed@),
{
    let mut out: Vec<Candidate> = Vec::new();
    let mut k: usize = 0;
    proof {
        lemma_offers_empty(typed@);
        assert(command_names(commands@).take(0) =~= Seq::empty());
        assert(suggestions(out@) =~= Seq::empty());
    }
    while k < commands.len()
        invariant
            k <= commands.len(),
            suggestions(out@) == offers(command_names(commands@).take(k as int), typed@),
        decreases commands.len() - k,
    {
        let name = &commands[k].name;
        proof {
            let names = command_names(commands@);
            assert(names.take(k + 1) =~= names.take(k as int).push(name@));
            lemma_offers_push(names.take(k as int), name@, typed@);
        }
        if starts_with(name.as_str(), typed) {
            let next = candidate(name.clone());
            proof {
                lemma_suggestions_push(out@, next);
            }
            out.push(next);
        }
        k = k + 1;
    }
    assert(command_names(commands@).take(k as int) =~= command_names(commands@));
    out
}

/// A candidate for each of the two spellings that begins with `typed`.
fn offer_spellings(yes: &String, no: &String, typed: &str) -> (result: Vec<Candidate>)
    ensures
        suggestions(result@) == offers(seq![yes@, no@], typed@),
{
    let mut out: Vec<Candidate> = Vec::new();
    proof {
        lemma_offers_empty(typed@);
        lemma_offers_push(Seq::empty(), yes@, typed@);
        lemma_offers_push(seq![yes@], no@, typed@);
        assert(Seq::<Seq<char>>::empty().push(yes@) =~= seq![yes@]);
        assert(seq![yes@].push(no@) =~= seq![yes@, no@]);
        assert(suggestions(out@) =~= Seq::empty());
    }
    if starts_with(yes.as_str(), typed) {
        let next = candidate(yes.clone());
        proof {
            lemma_suggestions_push(out@, next);
        }
        out.push(next);
    }
    if starts_with(no.as_str(), typed) {
        let next = candidate(no.clone());
        proof {
            lemma_suggestions_push(out@, next);
        }
        out.push(next);
    }
    out
}

/// A start offset and candidates, as a mathematical value.
pub open spec fn outcome(result: (usize, Vec<Candidate>)) -> Completion {
    Completion { start: result.0 as int, candidates: suggestions(result.1@) }
}

/// No candidate.
pub(crate) fn no_candidates() -> (result: (usize, Vec<Candidate>))
    ensures
        outcome(result) == nothing(),
{
    let out: Vec<Candidate> = Vec::new();
    assert(suggestions(out@) =~= Seq::empty());
    (0, out)
}

/// The completion at a parameter list.
fn complete_fields(
    fields: &Vec<Param>,
    tokens: VecDeque<crate::tokenizer::Token>,
    cursor: usize,
    spaced: bool,
) -> (result: (usize, Vec<Candidate>))
    ensures
        outcome(result) == propose_fields(fields@, lexemes(tokens@), cursor as int, spaced),
{
    let ghost goal = propose_fields(fields@, lexemes(tokens@), cursor as int, spaced);
    let mut queue = tokens;
    let mut k: usize = 0;
    assert(fields@.subrange(0, fields@.len() as int) =~= fields@);
    while k < fields.len()
        invariant
            k <= fields.len(),
            goal == propose_fields(fields@, lexemes(tokens@), cursor as int, spaced),
            goal == propose_fields(
                fields@.subrange(k as int, fields@.len() as int),
                lexemes(queue@),
                cursor as int,
                spaced,
            ),
        decreases fields.len() - k,
    {
        let ghost left = fields@.subrange(k as int, fields@.len() as int);
        let ghost rest = queue@;
        assert(left.drop_first() =~= fields@.subrange(k + 1, fields@.len() as int));
        assert(left[0] == fields@[k as int]);
        match &fields[k] {
            Param::String(description) => match queue.pop_front() {
                Some(_) => {
                    proof {
                        lemma_lexemes_drop_first(rest);
                    }
                },
                None => {
                    if spaced {
                        let mut out: Vec<Candidate> = Vec::new();
                        out.push(describe(description));
                        assert(suggestions(out@) =~= seq![placeholder(description@)]);
                        return (cursor, out);
                    } else {
                        return no_candidates();
                    }
                },
            },
            Param::Bool(yes, no) => match queue.pop_front() {
                Some(token) => {
                    proof {
                        lemma_lexemes_drop_first(rest);
                    }
                    if token.quoted {
                        return no_candidates();
                    }
                    if (token.text == *yes || token.text == *no) && cursor > token.end {
                    } else {
                        let out = offer_spellings(yes, no, token.text.as_str());
                        let start = if out.len() > 0 {
                            token.begin
                        } else {
                            0
                        };
                        return (start, out);
                    }
                },
                None => {
                    let mut out: Vec<Candidate> = Vec::new();
                    out.push(candidate(yes.clone()));
                    out.push(candidate(no.clone()));
                    assert(suggestions(out@) =~= seq![offer(yes@), offer(no@)]);
                    return (cursor, out);
                },
            },
        }
        k = k + 1;
    }
    no_candidates()
}

/// The completion from `root` on, for the tokens before the cursor; `spaced`
/// says whether a space stands right before the cursor.
pub fn complete_tokens<T: Id, A>(
    root: &Sub<T, A>,
    tokens: VecDeque<crate::tokenizer::Token>,
    cursor: usize,
    spaced: bool,
) -> (result: (usize, Vec<Candidate>))
    ensures
        outcome(result) == propose(*root, lexemes(tokens@), cursor as int, spaced),
{
    let ghost goal = propose(*root, lexemes(tokens@), cursor as int, spaced);
    let mut queue = tokens;
    let mut sub = root;
    loop
        invariant
            goal == propose(*root, lexemes(tokens@), cursor as int, spaced),
            goal == propose(*sub, lexemes(queue@), cursor as int, spaced),
        decreases queue@.len(),
    {
        let ghost rest = queue@;
        match sub {
            Sub::Branch(commands) => match queue.pop_front() {
                Some(token) => {
                    proof {
                        lemma_lexemes_drop_first(rest);
                    }
                    if token.quoted {
                        return no_candidates();
                    }
                    let found = if cursor > token.end {
                        crate::parser::find(commands, &token)
                    } else {
                        None
                    };
                    match found {
                        Some(k) => {
                            sub = &commands[k].sub;
                        },
                        None => {
                            if queue.len() == 0 {
                                return (token.begin, offer_commands(commands, token.text.as_str()));
                            } else {
                                return no_candidates();
                            }
                        },
                    }
                },
                None => {
                    proof {
                        reveal_strlit("");
                        assert(""@ =~= Seq::<char>::empty());
                    }
                    return (cursor, offer_commands(commands, ""));
                },
            },
            Sub::Params(fields, _) => {
                return complete_fields(fields, queue, cursor, spaced);
            },
            Sub::Terminal(_) => {
                return no_candidates();
            },
        }
    }
}

} // verus!
