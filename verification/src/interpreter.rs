//! What to do with a parsed line: run the action it resolved to, or not.

use crate::grammar::{Action, CallbackParameter, Id, Param, Sub, Value};
use crate::parser::{fill, invalids, position, reading, steps, walk, Step, Token};
use crate::tokenizer::Lexeme;
use std::collections::VecDeque;
use vstd::prelude::*;

verus! {

/// An action and the parameter values to hand to it.
pub struct Invocation<'a, A> {
    pub action: &'a A,
    pub params: Vec<CallbackParameter>,
}

/// The views of a sequence of parameter values, in order.
pub open spec fn values(params: Seq<CallbackParameter>) -> Seq<Value> {
    params.map_values(|p: CallbackParameter| p@)
}

/// The steps that reached a terminal, in order.
pub open spec fn terminals<T, A>(walked: Seq<Step<T, A>>) -> Seq<Step<T, A>> {
    walked.filter(|s: Step<T, A>| s is Terminal)
}

/// Whether a step carries a parameter value.
pub open spec fn is_argument<T, A>(step: Step<T, A>) -> bool {
    step is ParamString || step is ParamBool
}

/// The value a parameter step carries.
pub open spec fn value_of<T, A>(step: Step<T, A>) -> Value {
    match step {
        Step::ParamString(text) => Value::String(text),
        Step::ParamBool(flag) => Value::Bool(flag),
        _ => arbitrary(),
    }
}

/// The parameter values of a walk, in order.
pub open spec fn arguments<T, A>(walked: Seq<Step<T, A>>) -> Seq<Value> {
    walked.filter(|s: Step<T, A>| is_argument(s)).map_values(|s: Step<T, A>| value_of(s))
}

/// Whether every step resolved: none is `Invalid` or `Missing`.
pub open spec fn resolved<T, A>(walked: Seq<Step<T, A>>) -> bool {
    forall|i: int|
        0 <= i < walked.len() ==> !(#[trigger] walked[i] is Invalid) && !(walked[i] is Missing)
}

/// Whether a walk can be run: every step resolved and exactly one terminal
/// was reached.
pub open spec fn executable<T, A>(walked: Seq<Step<T, A>>) -> bool {
    resolved(walked) && terminals(walked).len() == 1
}

proof fn lemma_walk_push<T, A>(seen: Seq<Step<T, A>>, step: Step<T, A>)
    ensures
        terminals(seen.push(step)) == if step is Terminal {
            terminals(seen).push(step)
        } else {
            terminals(seen)
        },
        arguments(seen.push(step)) == if is_argument(step) {
            arguments(seen).push(value_of(step))
        } else {
            arguments(seen)
        },
        resolved(seen.push(step)) == (resolved(seen) && !(step is Invalid) && !(step is Missing)),
{
    seen.lemma_filter_push(step, |s: Step<T, A>| s is Terminal);
    seen.lemma_filter_push(step, |s: Step<T, A>| is_argument(s));
    if is_argument(step) {
        assert(arguments(seen.push(step)) =~= arguments(seen).push(value_of(step)));
    }
    if resolved(seen.push(step)) {
        assert forall|i: int| 0 <= i < seen.len() implies !(#[trigger] seen[i] is Invalid) && !(
        seen[i] is Missing) by {
            assert(seen.push(step)[i] == seen[i]);
        }
        assert(seen.push(step)[seen.len() as int] == step);
    }
}

proof fn lemma_terminals_add<T, A>(left: Seq<Step<T, A>>, right: Seq<Step<T, A>>)
    ensures
        terminals(left + right) == terminals(left) + terminals(right),
{
    Seq::filter_distributes_over_add(left, right, |s: Step<T, A>| s is Terminal);
}

proof fn lemma_terminals_one<T, A>(step: Step<T, A>)
    ensures
        terminals(seq![step]).len() == if step is Terminal {
            1nat
        } else {
            0nat
        },
{
    reveal(Seq::filter);
    lemma_walk_push(Seq::<Step<T, A>>::empty(), step);
    assert(Seq::<Step<T, A>>::empty().push(step) =~= seq![step]);
}

proof fn lemma_terminals_invalids<T, A>(count: nat)
    ensures
        terminals(invalids::<T, A>(count)).len() == 0,
    decreases count,
{
    if count == 0 {
        reveal(Seq::filter);
    } else {
        lemma_terminals_invalids::<T, A>((count - 1) as nat);
        lemma_walk_push(invalids::<T, A>((count - 1) as nat), Step::Invalid);
        assert(invalids::<T, A>((count - 1) as nat).push(Step::Invalid) =~= invalids::<T, A>(count));
    }
}

proof fn lemma_fill_one_terminal<T, A>(fields: Seq<Param>, action: A, words: Seq<Lexeme>, clean: bool)
    ensures
        terminals(fill::<T, A>(fields, action, words, clean)).len() <= 1,
    decreases fields.len(),
{
    if fields.len() == 0 {
        lemma_terminals_invalids::<T, A>(words.len());
        lemma_terminals_one(Step::<T, A>::Terminal(action));
        lemma_terminals_add(seq![Step::<T, A>::Terminal(action)], invalids::<T, A>(words.len()));
    } else if words.len() == 0 {
        lemma_terminals_one(Step::<T, A>::Missing);
    } else {
        let step = reading::<T, A>(fields[0], words[0]);
        let after = fill::<T, A>(
            fields.drop_first(),
            action,
            words.drop_first(),
            clean && !(step is Invalid),
        );
        lemma_fill_one_terminal::<T, A>(
            fields.drop_first(),
            action,
            words.drop_first(),
            clean && !(step is Invalid),
        );
        lemma_terminals_one(step);
        lemma_terminals_add(seq![step], after);
    }
}

/// A walk reaches at most one terminal: it can be run if and only if every
/// step resolved and it reached one.
pub proof fn lemma_walk_reaches_one_terminal<T: Id, A>(sub: Sub<T, A>, words: Seq<Lexeme>)
    ensures
        terminals(walk(sub, words)).len() <= 1,
        executable(walk(sub, words)) <==> resolved(walk(sub, words)) && terminals(
            walk(sub, words),
        ).len() > 0,
    decreases words.len(),
{
    match sub {
        Sub::Branch(commands) => {
            if words.len() == 0 {
                lemma_terminals_one(Step::<T, A>::Missing);
            } else {
                let k = position(commands@, words[0], 0);
                if 0 <= k < commands@.len() {
                    let first = Step::<T, A>::Command(commands@[k].id);
                    lemma_walk_reaches_one_terminal(commands@[k].sub, words.drop_first());
                    lemma_terminals_one(first);
                    lemma_terminals_add(seq![first], walk(commands@[k].sub, words.drop_first()));
                } else {
                    lemma_terminals_invalids::<T, A>(words.len());
                }
            }
        },
        Sub::Params(fields, action) => {
            lemma_fill_one_terminal::<T, A>(fields@, action, words, true);
        },
        Sub::Terminal(action) => {
            lemma_terminals_invalids::<T, A>(words.len());
            lemma_terminals_one(Step::<T, A>::Terminal(action));
            lemma_terminals_add(seq![Step::<T, A>::Terminal(action)], invalids::<T, A>(words.len()));
        },
    }
}

/// Decides whether a parsed line can be run, and with what.
///
/// It can if every step resolved and exactly one terminal was reached; the
/// parameter values are then those of the parameter steps, in order.
pub fn resolve<'a, T: Id, A>(tokens: VecDeque<Token<'a, T, A>>) -> (result: Option<Invocation<'a, A>>)
    ensures
        match result {
            Some(call) => {
                &&& executable(steps(tokens@))
                &&& terminals(steps(tokens@))[0] == Step::<T, A>::Terminal(*call.action)
                &&& values(call.params@) == arguments(steps(tokens@))
            },
            None => !executable(steps(tokens@)),
        },
{
    let ghost walked = steps(tokens@);
    let ghost mut n: int = 0;
    let mut queue = tokens;
    let mut ok = true;
    let mut action: Option<&'a A> = None;
    let mut repeated = false;
    let mut params: Vec<CallbackParameter> = Vec::new();
    proof {
        reveal(Seq::filter);
        assert(walked.take(0) =~= Seq::empty());
        assert(values(params@) =~= Seq::empty());
        assert(arguments(Seq::<Step<T, A>>::empty()) =~= Seq::empty());
        assert(queue@ =~= tokens@.subrange(0, tokens@.len() as int));
    }
    loop
        invariant_except_break
            0 <= n <= tokens@.len(),
            walked == steps(tokens@),
            queue@ == tokens@.subrange(n, tokens@.len() as int),
        invariant
            ok == resolved(walked.take(n)),
            values(params@) == arguments(walked.take(n)),
            match action {
                Some(first) => terminals(walked.take(n)).len() >= 1 && terminals(walked.take(n))[0]
                    == Step::<T, A>::Terminal(*first),
                None => terminals(walked.take(n)).len() == 0,
            },
            repeated == (terminals(walked.take(n)).len() >= 2),
        ensures
            n == tokens@.len(),
        decreases queue@.len(),
    {
        let ghost seen = walked.take(n);
        match queue.pop_front() {
            Some(token) => {
                proof {
                    assert(token == tokens@[n]);
                    assert(walked.take(n + 1) =~= seen.push(token@));
                    lemma_walk_push(seen, token@);
                    assert(queue@ =~= tokens@.subrange(n + 1, tokens@.len() as int));
                    n = n + 1;
                }
                match token {
                    Token::Command(_) => {},
                    Token::ParamString(text) => {
                        let value = CallbackParameter::String(text);
                        assert(values(params@.push(value)) =~= values(params@).push(value@));
                        params.push(value);
                    },
                    Token::ParamBool(flag) => {
                        let value = CallbackParameter::Bool(flag);
                        assert(values(params@.push(value)) =~= values(params@).push(value@));
                        params.push(value);
                    },
                    Token::Terminal(reached) => {
                        if action.is_some() {
                            repeated = true;
                        } else {
                            action = Some(reached);
                        }
                    },
                    Token::Missing => {
                        ok = false;
                    },
                    Token::Invalid => {
                        ok = false;
                    },
                }
            },
            None => {
                break ;
            },
        }
    }
    assert(walked.take(n) =~= walked);
    match action {
        Some(first) => {
            if ok && !repeated {
                Some(Invocation { action: first, params })
            } else {
                None
            }
        },
        None => None,
    }
}

/// Runs the action of a parsed line if it can be run, and says whether it
/// did.
pub fn interpret<'a, T: Id, A: Action>(tokens: VecDeque<Token<'a, T, A>>) -> (ran: bool)
    ensures
        ran == executable(steps(tokens@)),
{
    match resolve(tokens) {
        Some(call) => {
            call.action.invoke(call.params);
            true
        },
        None => false,
    }
}

} // verus!
