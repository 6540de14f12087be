//! The walk of the grammar tree against the tokens of a whole line.

use crate::grammar::{distinct_names, Command, Id, Param, Sub};
use crate::tokenizer::{lemma_lexemes_drop_first, lexemes, Lexeme};
use std::collections::VecDeque;
use vstd::prelude::*;

verus! {

/// One step of the walk, as a mathematical value.
pub enum Step<T, A> {
    Command(T),
    Terminal(A),
    ParamString(Seq<char>),
    ParamBool(bool),
    Missing,
    Invalid,
}

/// One step of the walk: a resolved command, the action of the terminal that
/// was reached, a resolved parameter, a token that was expected and is not
/// there, or a token that fits nowhere.
pub enum Token<'a, T: Id, A> {
    Command(&'a T),
    Terminal(&'a A),
    ParamString(String),
    ParamBool(bool),
    Missing,
    Invalid,
}

impl<'a, T: Id, A> View for Token<'a, T, A> {
    type V = Step<T, A>;

    open spec fn view(&self) -> Step<T, A> {
        match self {
            Token::Command(id) => Step::Command(**id),
            Token::Terminal(action) => Step::Terminal(**action),
            Token::ParamString(text) => Step::ParamString(text@),
            Token::ParamBool(flag) => Step::ParamBool(*flag),
            Token::Missing => Step::Missing,
            Token::Invalid => Step::Invalid,
        }
    }
}

/// The views of a sequence of result tokens, in order.
pub open spec fn steps<'a, T: Id, A>(tokens: Seq<Token<'a, T, A>>) -> Seq<Step<T, A>> {
    tokens.map_values(|t: Token<'a, T, A>| t@)
}

/// A line that the tokenizer rejects.
#[derive(Debug)]
pub enum Error {
    Parse,
}

/// Whether `word` names `command`: never if it was quoted.
pub open spec fn names<T: Id, A>(word: Lexeme, command: Command<T, A>) -> bool {
    !word.quoted && command.name@ == word.text
}

/// The index of the first command at or after `from` that `word` names, or
/// the number of commands if it names none.
pub open spec fn position<T: Id, A>(commands: Seq<Command<T, A>>, word: Lexeme, from: int) -> int
    decreases commands.len() - from,
{
    if 0 <= from < commands.len() && !names(word, commands[from]) {
        position(commands, word, from + 1)
    } else {
        from
    }
}

/// `count` tokens that fit nowhere.
pub open spec fn invalids<T, A>(count: nat) -> Seq<Step<T, A>> {
    Seq::new(count, |i: int| Step::Invalid)
}

/// What a parameter makes of the token that stands for it.
pub open spec fn reading<T, A>(field: Param, word: Lexeme) -> Step<T, A> {
    match field {
        Param::String(_) => Step::ParamString(word.text),
        Param::Bool(yes, no) => if word.text == yes@ {
            Step::ParamBool(true)
        } else if word.text == no@ {
            Step::ParamBool(false)
        } else {
            Step::Invalid
        },
    }
}

/// The steps of a parameter list against the words left: one step for each
/// field in order, up to and including the first one that has no word. Where
/// every field has its word, the terminal with `action` is reached if `clean`
/// holds and no field made `Invalid` of its word; then comes one `Invalid`
/// for each word left over.
pub open spec fn fill<T, A>(fields: Seq<Param>, action: A, words: Seq<Lexeme>, clean: bool) -> Seq<
    Step<T, A>,
>
    decreases fields.len(),
{
    if fields.len() == 0 {
        if clean {
            seq![Step::Terminal(action)] + invalids(words.len())
        } else {
            invalids(words.len())
        }
    } else if words.len() == 0 {
        seq![Step::Missing]
    } else {
        let step = reading(fields[0], words[0]);
        seq![step] + fill(
            fields.drop_first(),
            action,
            words.drop_first(),
            clean && !(step is Invalid),
        )
    }
}

/// The steps of the walk from `sub` against `words`.
///
/// At a branch the first word picks the sub-command and the walk goes on
/// below it; a word that names none is `Invalid`, and so is each word after
/// it. A branch with no word left is `Missing`.
pub open spec fn walk<T: Id, A>(sub: Sub<T, A>, words: Seq<Lexeme>) -> Seq<Step<T, A>>
    decreases words.len(),
{
    match sub {
        Sub::Branch(commands) => if words.len() == 0 {
            seq![Step::Missing]
        } else {
            let k = position(commands@, words[0], 0);
            if 0 <= k < commands@.len() {
                seq![Step::Command(commands@[k].id)] + walk(commands@[k].sub, words.drop_first())
            } else {
                invalids(words.len())
            }
        },
        Sub::Params(fields, action) => fill(fields@, action, words, true),
        Sub::Terminal(action) => seq![Step::Terminal(action)] + invalids(words.len()),
    }
}

proof fn lemma_position_from<T: Id, A>(commands: Seq<Command<T, A>>, word: Lexeme, from: int, k: int)
    requires
        0 <= from <= k < commands.len(),
        names(word, commands[k]),
        forall|i: int| from <= i < k ==> !names(word, #[trigger] commands[i]),
    ensures
        position(commands, word, from) == k,
    decreases k - from,
{
    if from < k {
        lemma_position_from(commands, word, from + 1, k);
    }
}

/// In a branch where no two commands have one name, a word names one command
/// at most, and that is the one the walk goes below.
pub proof fn lemma_position_of_named<T: Id, A>(commands: Seq<Command<T, A>>, word: Lexeme, k: int)
    requires
        distinct_names(commands),
        0 <= k < commands.len(),
        names(word, commands[k]),
    ensures
        position(commands, word, 0) == k,
        forall|i: int| 0 <= i < commands.len() && names(word, #[trigger] commands[i]) ==> i == k,
{
    lemma_position_from(commands, word, 0, k);
}

/// The first command that `token` names.
pub fn find<T: Id, A>(commands: &Vec<Command<T, A>>, token: &crate::tokenizer::Token) -> (found:
    Option<usize>)
    ensures
        match found {
            Some(k) => k < commands.len() && k == position(commands@, token@, 0),
            None => position(commands@, token@, 0) == commands.len(),
        },
{
    let mut k: usize = 0;
    while k < commands.len()
        invariant
            k <= commands.len(),
            position(commands@, token@, 0) == position(commands@, token@, k as int),
        decreases commands.len() - k,
    {
        if !token.quoted && commands[k].name == token.text {
            return Some(k);
        }
        k = k + 1;
    }
    None
}

proof fn lemma_steps_push<'a, T: Id, A>(done: Seq<Token<'a, T, A>>, token: Token<'a, T, A>)
    ensures
        steps(done.push(token)) == steps(done) + seq![token@],
{
    assert(steps(done.push(token)) =~= steps(done) + seq![token@]);
}

proof fn lemma_assoc<T, A>(a: Seq<Step<T, A>>, b: Step<T, A>, c: Seq<Step<T, A>>)
    ensures
        a + (seq![b] + c) == a + seq![b] + c,
{
    assert(a + (seq![b] + c) =~= a + seq![b] + c);
}

/// Appends one `Invalid` for each of `count` tokens.
fn push_invalid<'a, T: Id, A>(out: &mut VecDeque<Token<'a, T, A>>, count: usize)
    ensures
        steps(final(out)@) == steps(old(out)@) + invalids::<T, A>(count as nat),
{
    let ghost before = out@;
    let mut n: usize = 0;
    assert(steps(out@) =~= steps(before) + invalids::<T, A>(0));
    while n < count
        invariant
            n <= count,
            steps(out@) == steps(before) + invalids::<T, A>(n as nat),
        decreases count - n,
    {
        proof {
            lemma_steps_push(out@, Token::Invalid);
            assert(steps(before) + invalids::<T, A>(n as nat) + seq![Step::<T, A>::Invalid] =~= steps(
                before,
            ) + invalids::<T, A>((n + 1) as nat));
        }
        out.push_back(Token::Invalid);
        n = n + 1;
    }
}

/// What `field` makes of `token`.
fn read_param<'a, T: Id, A>(field: &Param, token: crate::tokenizer::Token) -> (result: Token<
    'a,
    T,
    A,
>)
    ensures
        result@ == reading::<T, A>(*field, token@),
{
    match field {
        Param::String(_) => Token::ParamString(token.text),
        Param::Bool(yes, no) => {
            if token.text == *yes {
                Token::ParamBool(true)
            } else if token.text == *no {
                Token::ParamBool(false)
            } else {
                Token::Invalid
            }
        },
    }
}

/// Walks a parameter list, taking one token for each field.
fn fill_params<'a, T: Id, A>(
    fields: &Vec<Param>,
    action: &'a A,
    tokens: VecDeque<crate::tokenizer::Token>,
    out: &mut VecDeque<Token<'a, T, A>>,
)
    ensures
        steps(final(out)@) == steps(old(out)@) + fill::<T, A>(fields@, *action, lexemes(tokens@), true),
{
    let ghost goal = steps(out@) + fill::<T, A>(fields@, *action, lexemes(tokens@), true);
    let mut queue = tokens;
    let mut clean = true;
    let mut k: usize = 0;
    assert(fields@.subrange(0, fields@.len() as int) =~= fields@);
    while k < fields.len()
        invariant
            k <= fields.len(),
            goal == steps(old(out)@) + fill::<T, A>(fields@, *action, lexemes(tokens@), true),
            steps(out@) + fill::<T, A>(
                fields@.subrange(k as int, fields@.len() as int),
                *action,
                lexemes(queue@),
                clean,
            ) == goal,
        decreases fields.len() - k,
    {
        let ghost left = fields@.subrange(k as int, fields@.len() as int);
        let ghost rest = queue@;
        let ghost done = out@;
        assert(left.drop_first() =~= fields@.subrange(k + 1, fields@.len() as int));
        match queue.pop_front() {
            Some(token) => {
                let step = read_param(&fields[k], token);
                if let Token::Invalid = step {
                    clean = false;
                }
                out.push_back(step);
                proof {
                    lemma_lexemes_drop_first(rest);
                    lemma_steps_push(done, step);
                    lemma_assoc(
                        steps(done),
                        step@,
                        fill::<T, A>(left.drop_first(), *action, lexemes(rest).drop_first(), clean),
                    );
                }
            },
            None => {
                out.push_back(Token::Missing);
                proof {
                    lemma_steps_push(done, Token::Missing);
                }
                return ;
            },
        }
        k = k + 1;
    }
    if clean {
        let ghost done = out@;
        out.push_back(Token::Terminal(action));
        proof {
            lemma_steps_push(done, Token::Terminal(action));
            lemma_assoc(steps(done), Step::<T, A>::Terminal(*action), invalids::<T, A>(queue@.len()));
        }
    }
    push_invalid(out, queue.len());
}

/// Walks the grammar tree from `root` against the tokens of a line.
pub fn parse_tokens<'a, T: Id, A>(
    root: &'a Sub<T, A>,
    tokens: VecDeque<crate::tokenizer::Token>,
) -> (result: VecDeque<Token<'a, T, A>>)
    ensures
        steps(result@) == walk(*root, lexemes(tokens@)),
{
    let ghost words = lexemes(tokens@);
    let mut tokens = tokens;
    let mut sub = root;
    let mut out: VecDeque<Token<'a, T, A>> = VecDeque::new();
    assert(steps(out@) + walk(*sub, words) =~= walk(*root, words));
    loop
        invariant_except_break
            steps(out@) + walk(*sub, lexemes(tokens@)) == walk(*root, words),
        ensures
            steps(out@) == walk(*root, words),
        decreases tokens@.len(),
    {
        let ghost done = out@;
        let ghost rest = tokens@;
        match sub {
            Sub::Branch(commands) => match tokens.pop_front() {
                Some(token) => {
                    proof {
                        lemma_lexemes_drop_first(rest);
                    }
                    match find(commands, &token) {
                        Some(k) => {
                            let step = Token::Command(&commands[k].id);
                            proof {
                                lemma_steps_push(out@, step);
                                lemma_assoc(
                                    steps(done),
                                    step@,
                                    walk(commands@[k as int].sub, lexemes(rest).drop_first()),
                                );
                            }
                            out.push_back(step);
                            sub = &commands[k].sub;
                        },
                        None => {
                            proof {
                                lemma_steps_push(out@, Token::Invalid);
                            }
                            out.push_back(Token::Invalid);
                            push_invalid(&mut out, tokens.len());
                            assert(steps(done) + invalids::<T, A>(rest.len()) =~= steps(
                                done.push(Token::Invalid),
                            ) + invalids::<T, A>(tokens@.len()));
                            break ;
                        },
                    }
                },
                None => {
                    proof {
                        lemma_steps_push(out@, Token::Missing);
                    }
                    out.push_back(Token::Missing);
                    break ;
                },
            },
            Sub::Params(fields, action) => {
                fill_params(fields, action, tokens, &mut out);
                break ;
            },
            Sub::Terminal(action) => {
                proof {
                    lemma_steps_push(out@, Token::Terminal(action));
                }
                out.push_back(Token::Terminal(action));
                push_invalid(&mut out, tokens.len());
                proof {
                    lemma_assoc(
                        steps(done),
                        Step::<T, A>::Terminal(*action),
                        invalids::<T, A>(rest.len()),
                    );
                }
                break ;
            },
        }
    }
    out
}

} // verus!
