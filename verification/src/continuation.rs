//! What a candidate makes of the line it is put into.

use crate::completer::{
    command_names, completion, offer, offers, placeholder, propose, propose_fields, Suggestion,
};
use crate::grammar::{Command, Id, Param, Sub};
use crate::parser::{fill, invalids, names, position, reading, walk, Step};
use crate::tokenizer::{
    first_offset, is_quote, is_word_char, lemma_lex_from_placed, lemma_quote_end_bounds,
    lemma_quote_end_is, lemma_tokens_in_order, lemma_word_end_bounds, lemma_word_end_is, lex,
    lex_from, next_offset, placed, quote_end, quoted_at, word_at, word_end, Lexeme,
};
use vstd::prelude::*;

verus! {

/// Whether `text` can be typed as one bare word: it is not empty and holds
/// neither a space nor a quote character.
pub open spec fn is_word(text: Seq<char>) -> bool {
    text.len() > 0 && forall|k: int| 0 <= k < text.len() ==> is_word_char(#[trigger] text[k])
}

/// Whether what completes a parameter can be typed as one bare word: each of
/// the two spellings of a boolean parameter, and the description of a free
/// parameter between its angle brackets.
pub open spec fn typable(field: Param) -> bool {
    match field {
        Param::String(description) => forall|k: int|
            0 <= k < description@.len() ==> is_word_char(#[trigger] description@[k]),
        Param::Bool(yes, no) => is_word(yes@) && is_word(no@),
    }
}

/// Whether every name of the tree, from `sub` down, and what completes every
/// parameter can be typed as one bare word.
pub open spec fn in_bare_words<T: Id, A>(sub: Sub<T, A>) -> bool
    decreases sub,
{
    match sub {
        Sub::Branch(commands) => forall|i: int|
            0 <= i < commands@.len() ==> is_word((#[trigger] commands@[i]).name@) && in_bare_words(
                commands@[i].sub,
            ),
        Sub::Params(fields, _) => forall|i: int|
            0 <= i < fields@.len() ==> typable(#[trigger] fields@[i]),
        Sub::Terminal(_) => true,
    }
}

/// The bare token with the given text that begins at `begin`.
pub open spec fn bare(text: Seq<char>, begin: int) -> Lexeme {
    Lexeme { text, begin, end: begin + text.len(), quoted: false }
}

/// The words of a line in which `word` and a space were put in place of all
/// that stood from `start` on: the words before `start` stay, and `word`
/// comes after them, or at the end of the last of them if that one is bare
/// and reaches `start`.
pub open spec fn put(words: Seq<Lexeme>, start: int, word: Seq<char>) -> Seq<Lexeme>
    decreases words.len(),
{
    if words.len() == 0 || words[0].begin >= start {
        seq![bare(word, start)]
    } else if !words[0].quoted && words[0].end >= start {
        seq![
            Lexeme {
                text: words[0].text + word,
                begin: words[0].begin,
                end: start + word.len(),
                quoted: false,
            },
        ]
    } else {
        seq![words[0]] + put(words.drop_first(), start, word)
    }
}

/// Whether no step is `Invalid`.
pub open spec fn no_invalid<T, A>(walked: Seq<Step<T, A>>) -> bool {
    forall|i: int| 0 <= i < walked.len() ==> !(#[trigger] walked[i] is Invalid)
}

/// The word that a candidate puts into the line, without the space after it.
pub open spec fn word_of(candidate: Suggestion) -> Seq<char> {
    candidate.replacement.drop_last()
}

/// Whether the words stand in a line of `cursor` characters, in order and
/// apart from each other.
pub open spec fn in_order(words: Seq<Lexeme>, cursor: int) -> bool {
    &&& forall|i: int|
        0 <= i < words.len() ==> 0 <= (#[trigger] words[i]).begin <= words[i].end <= cursor
            && words[i].begin < cursor
    &&& forall|i: int, j: int|
        0 <= i < j < words.len() ==> (#[trigger] words[i]).end < (#[trigger] words[j]).begin
}

/// Whether `start` is the cursor or the begin of a bare word.
pub open spec fn at_boundary(words: Seq<Lexeme>, cursor: int, start: int) -> bool {
    start == cursor || exists|i: int|
        0 <= i < words.len() && start == (#[trigger] words[i]).begin && !words[i].quoted
}

proof fn lemma_rest_in_order(words: Seq<Lexeme>, cursor: int)
    requires
        in_order(words, cursor),
        words.len() > 0,
    ensures
        in_order(words.drop_first(), cursor),
        forall|i: int|
            0 <= i < words.drop_first().len() ==> words[0].end < (
            #[trigger] words.drop_first()[i]).begin,
{
    let rest = words.drop_first();
    assert forall|i: int| 0 <= i < rest.len() implies 0 <= (#[trigger] rest[i]).begin <= rest[i].end
        <= cursor && rest[i].begin < cursor && words[0].end < rest[i].begin by {
        assert(rest[i] == words[i + 1]);
    }
    assert forall|i: int, j: int| 0 <= i < j < rest.len() implies (#[trigger] rest[i]).end < (
    #[trigger] rest[j]).begin by {
        assert(rest[i] == words[i + 1]);
        assert(rest[j] == words[j + 1]);
    }
}

proof fn lemma_rest_at_boundary(words: Seq<Lexeme>, cursor: int, start: int)
    requires
        words.len() > 0,
        at_boundary(words.drop_first(), cursor, start),
    ensures
        at_boundary(words, cursor, start),
{
    if start != cursor {
        let rest = words.drop_first();
        let i = choose|i: int|
            0 <= i < rest.len() && start == (#[trigger] rest[i]).begin && !rest[i].quoted;
        assert(rest[i] == words[i + 1]);
    }
}

proof fn lemma_prepend_no_invalid<T, A>(step: Step<T, A>, rest: Seq<Step<T, A>>)
    requires
        !(step is Invalid),
        no_invalid(rest),
    ensures
        no_invalid(seq![step] + rest),
{
    let all = seq![step] + rest;
    assert forall|i: int| 0 <= i < all.len() implies !(#[trigger] all[i] is Invalid) by {
        if i > 0 {
            assert(all[i] == rest[i - 1]);
        }
    }
}

proof fn lemma_fill_no_words<T, A>(fields: Seq<Param>, action: A, clean: bool)
    ensures
        no_invalid(fill::<T, A>(fields, action, Seq::empty(), clean)),
{
    let none = Seq::<Lexeme>::empty();
    if fields.len() == 0 {
        assert(invalids::<T, A>(none.len()) =~= Seq::empty());
        lemma_prepend_no_invalid(Step::<T, A>::Terminal(action), invalids::<T, A>(none.len()));
    }
}

proof fn lemma_walk_no_words<T: Id, A>(sub: Sub<T, A>)
    ensures
        no_invalid(walk(sub, Seq::empty())),
{
    let none = Seq::<Lexeme>::empty();
    match sub {
        Sub::Branch(_) => {},
        Sub::Params(fields, action) => {
            lemma_fill_no_words::<T, A>(fields@, action, true);
        },
        Sub::Terminal(action) => {
            assert(invalids::<T, A>(none.len()) =~= Seq::empty());
            lemma_prepend_no_invalid(Step::<T, A>::Terminal(action), invalids::<T, A>(none.len()));
        },
    }
}

/// What `offer` puts into the line is the name and a space.
proof fn lemma_word_of_offer(name: Seq<char>)
    ensures
        word_of(offer(name)) == name,
        offer(name).replacement == name + seq![' '],
{
    assert(name.push(' ').drop_last() =~= name);
    assert(name.push(' ') =~= name + seq![' ']);
}

/// Every candidate that `offers` makes completes to one of the names.
proof fn lemma_offers_member(all: Seq<Seq<char>>, typed: Seq<char>, n: int)
    requires
        0 <= n < offers(all, typed).len(),
    ensures
        exists|k: int| 0 <= k < all.len() && word_of(offers(all, typed)[n]) == #[trigger] all[k],
        offers(all, typed)[n].replacement == word_of(offers(all, typed)[n]) + seq![' '],
{
    let begins = |name: Seq<char>| typed.is_prefix_of(name);
    let kept = all.filter(begins);
    assert(kept.contains(kept[n]));
    all.lemma_filter_contains_rev(begins, kept[n]);
    let k = choose|k: int| 0 <= k < all.len() && all[k] == kept[n];
    assert(offers(all, typed)[n] == offer(kept[n]));
    lemma_word_of_offer(kept[n]);
    assert(word_of(offers(all, typed)[n]) == all[k]);
}

proof fn lemma_position_found<T: Id, A>(commands: Seq<Command<T, A>>, word: Lexeme, from: int, k: int)
    requires
        0 <= from <= k < commands.len(),
        names(word, commands[k]),
    ensures
        from <= position(commands, word, from) <= k,
    decreases k - from,
{
    if from < k && !names(word, commands[from]) {
        lemma_position_found(commands, word, from + 1, k);
    }
}

/// A branch takes the bare word that is the name of one of its commands,
/// and nothing is invalid if no word follows.
proof fn lemma_branch_takes_name<T: Id, A>(sub: Sub<T, A>, word: Seq<char>, begin: int)
    requires
        sub matches Sub::Branch(commands) && exists|k: int|
            0 <= k < commands@.len() && word == (#[trigger] commands@[k]).name@,
    ensures
        no_invalid(walk(sub, seq![bare(word, begin)])),
{
    let commands = sub->Branch_0@;
    let k = choose|k: int| 0 <= k < commands.len() && word == (#[trigger] commands[k]).name@;
    let words = seq![bare(word, begin)];
    lemma_position_found(commands, words[0], 0, k);
    let found = position(commands, words[0], 0);
    assert(words.drop_first() =~= Seq::<Lexeme>::empty());
    lemma_walk_no_words(commands[found].sub);
    lemma_prepend_no_invalid(
        Step::<T, A>::Command(commands[found].id),
        walk(commands[found].sub, words.drop_first()),
    );
}

proof fn lemma_fields_start_at_boundary(
    fields: Seq<Param>,
    words: Seq<Lexeme>,
    cursor: int,
    spaced: bool,
)
    requires
        propose_fields(fields, words, cursor, spaced).candidates.len() > 0,
    ensures
        at_boundary(words, cursor, propose_fields(fields, words, cursor, spaced).start),
    decreases fields.len(),
{
    if fields.len() > 0 && words.len() > 0 {
        match fields[0] {
            Param::String(_) => {
                lemma_fields_start_at_boundary(fields.drop_first(), words.drop_first(), cursor, spaced);
                lemma_rest_at_boundary(
                    words,
                    cursor,
                    propose_fields(fields.drop_first(), words.drop_first(), cursor, spaced).start,
                );
            },
            Param::Bool(yes, no) => {
                if words[0].quoted {
                } else if (words[0].text == yes@ || words[0].text == no@) && words[0].end < cursor {
                    lemma_fields_start_at_boundary(
                        fields.drop_first(),
                        words.drop_first(),
                        cursor,
                        spaced,
                    );
                    lemma_rest_at_boundary(
                        words,
                        cursor,
                        propose_fields(fields.drop_first(), words.drop_first(), cursor, spaced).start,
                    );
                } else {
                    assert(words[0].begin == propose_fields(fields, words, cursor, spaced).start);
                }
            },
        }
    }
}

proof fn lemma_start_at_boundary<T: Id, A>(
    sub: Sub<T, A>,
    words: Seq<Lexeme>,
    cursor: int,
    spaced: bool,
)
    requires
        propose(sub, words, cursor, spaced).candidates.len() > 0,
    ensures
        at_boundary(words, cursor, propose(sub, words, cursor, spaced).start),
    decreases words.len(),
{
    match sub {
        Sub::Branch(commands) => {
            if words.len() > 0 && !words[0].quoted {
                let k = position(commands@, words[0], 0);
                if words[0].end < cursor && 0 <= k < commands@.len() {
                    lemma_start_at_boundary(commands@[k].sub, words.drop_first(), cursor, spaced);
                    lemma_rest_at_boundary(
                        words,
                        cursor,
                        propose(commands@[k].sub, words.drop_first(), cursor, spaced).start,
                    );
                } else if words.len() == 1 {
                    assert(words[0].begin == propose(sub, words, cursor, spaced).start);
                }
            }
        },
        Sub::Params(fields, _) => {
            lemma_fields_start_at_boundary(fields@, words, cursor, spaced);
        },
        Sub::Terminal(_) => {},
    }
}

/// Where the first word ends before the cursor and the line is cut at the
/// cursor or at the begin of a later word, the first word stays as it is.
proof fn lemma_put_keeps_first(words: Seq<Lexeme>, cursor: int, start: int, word: Seq<char>)
    requires
        in_order(words, cursor),
        words.len() > 0,
        words[0].end < cursor,
        at_boundary(words.drop_first(), cursor, start),
    ensures
        put(words, start, word) == seq![words[0]] + put(words.drop_first(), start, word),
{
    lemma_rest_in_order(words, cursor);
    if start != cursor {
        let rest = words.drop_first();
        let i = choose|i: int|
            0 <= i < rest.len() && start == (#[trigger] rest[i]).begin && !rest[i].quoted;
        assert(words[0].end < rest[i].begin);
    }
    assert(0 <= words[0].begin <= words[0].end);
}

/// A bare word that is one of the two spellings resolves to a boolean.
proof fn lemma_spelling_resolves<T, A>(field: Param, word: Seq<char>, begin: int)
    requires
        field matches Param::Bool(yes, no) && (word == yes@ || word == no@),
    ensures
        !(reading::<T, A>(field, bare(word, begin)) is Invalid),
{
}

/// One word at a parameter list, where the parameter does not make
/// `Invalid` of it, leaves nothing invalid.
proof fn lemma_fill_one_word<T, A>(fields: Seq<Param>, action: A, word: Lexeme, clean: bool)
    requires
        fields.len() > 0,
        !(reading::<T, A>(fields[0], word) is Invalid),
    ensures
        no_invalid(fill::<T, A>(fields, action, seq![word], clean)),
{
    let words = seq![word];
    let step = reading::<T, A>(fields[0], words[0]);
    assert(words.drop_first() =~= Seq::<Lexeme>::empty());
    lemma_fill_no_words::<T, A>(fields.drop_first(), action, clean && !(step is Invalid));
    lemma_prepend_no_invalid(
        step,
        fill::<T, A>(fields.drop_first(), action, words.drop_first(), clean && !(step is Invalid)),
    );
}

/// The walk of a parameter list against the line with a candidate put in
/// holds no `Invalid`.
proof fn lemma_fields_put<T, A>(
    fields: Seq<Param>,
    action: A,
    words: Seq<Lexeme>,
    cursor: int,
    spaced: bool,
    n: int,
    clean: bool,
)
    requires
        in_order(words, cursor),
        0 <= n < propose_fields(fields, words, cursor, spaced).candidates.len(),
    ensures
        no_invalid(
            fill::<T, A>(
                fields,
                action,
                put(
                    words,
                    propose_fields(fields, words, cursor, spaced).start,
                    word_of(propose_fields(fields, words, cursor, spaced).candidates[n]),
                ),
                clean,
            ),
        ),
    decreases fields.len(),
{
    let found = propose_fields(fields, words, cursor, spaced);
    let start = found.start;
    let word = word_of(found.candidates[n]);
    let after = put(words, start, word);
    if fields.len() > 0 {
        let below = propose_fields(fields.drop_first(), words.drop_first(), cursor, spaced);
        match fields[0] {
            Param::String(description) => {
                if words.len() == 0 {
                    lemma_fill_one_word::<T, A>(fields, action, bare(word, start), clean);
                } else {
                    assert(found == below);
                    lemma_fields_start_at_boundary(
                        fields.drop_first(),
                        words.drop_first(),
                        cursor,
                        spaced,
                    );
                    lemma_rest_in_order(words, cursor);
                    assert(words[0].begin < start) by {
                        if start != cursor {
                            let rest = words.drop_first();
                            let i = choose|i: int|
                                0 <= i < rest.len() && start == (#[trigger] rest[i]).begin
                                    && !rest[i].quoted;
                            assert(words[0].end < rest[i].begin);
                        }
                    }
                    if !words[0].quoted && words[0].end >= start {
                        lemma_fill_one_word::<T, A>(fields, action, after[0], clean);
                        assert(after =~= seq![after[0]]);
                    } else {
                        let step = reading::<T, A>(fields[0], words[0]);
                        assert(after.drop_first() =~= put(words.drop_first(), start, word));
                        lemma_fields_put::<T, A>(
                            fields.drop_first(),
                            action,
                            words.drop_first(),
                            cursor,
                            spaced,
                            n,
                            clean && !(step is Invalid),
                        );
                        lemma_prepend_no_invalid(
                            step,
                            fill::<T, A>(
                                fields.drop_first(),
                                action,
                                after.drop_first(),
                                clean && !(step is Invalid),
                            ),
                        );
                    }
                }
            },
            Param::Bool(yes, no) => {
                if words.len() == 0 {
                    lemma_word_of_offer(yes@);
                    lemma_word_of_offer(no@);
                    lemma_spelling_resolves::<T, A>(fields[0], word, start);
                    lemma_fill_one_word::<T, A>(fields, action, bare(word, start), clean);
                } else if words[0].quoted {
                } else if (words[0].text == yes@ || words[0].text == no@) && words[0].end < cursor {
                    assert(found == below);
                    lemma_fields_start_at_boundary(
                        fields.drop_first(),
                        words.drop_first(),
                        cursor,
                        spaced,
                    );
                    lemma_put_keeps_first(words, cursor, start, word);
                    lemma_rest_in_order(words, cursor);
                    let step = reading::<T, A>(fields[0], words[0]);
                    assert(after.drop_first() =~= put(words.drop_first(), start, word));
                    lemma_fields_put::<T, A>(
                        fields.drop_first(),
                        action,
                        words.drop_first(),
                        cursor,
                        spaced,
                        n,
                        clean && !(step is Invalid),
                    );
                    lemma_prepend_no_invalid(
                        step,
                        fill::<T, A>(
                            fields.drop_first(),
                            action,
                            after.drop_first(),
                            clean && !(step is Invalid),
                        ),
                    );
                } else {
                    let both = seq![yes@, no@];
                    lemma_offers_member(both, words[0].text, n);
                    let k = choose|k: int| 0 <= k < both.len() && word == #[trigger] both[k];
                    assert(start == words[0].begin);
                    lemma_spelling_resolves::<T, A>(fields[0], word, start);
                    lemma_fill_one_word::<T, A>(fields, action, bare(word, start), clean);
                }
            },
        }
    }
}

/// The walk against the line with a candidate put in holds no `Invalid`.
proof fn lemma_propose_put<T: Id, A>(
    sub: Sub<T, A>,
    words: Seq<Lexeme>,
    cursor: int,
    spaced: bool,
    n: int,
)
    requires
        in_order(words, cursor),
        0 <= n < propose(sub, words, cursor, spaced).candidates.len(),
    ensures
        no_invalid(
            walk(
                sub,
                put(
                    words,
                    propose(sub, words, cursor, spaced).start,
                    word_of(propose(sub, words, cursor, spaced).candidates[n]),
                ),
            ),
        ),
    decreases words.len(),
{
    let found = propose(sub, words, cursor, spaced);
    let start = found.start;
    let word = word_of(found.candidates[n]);
    let after = put(words, start, word);
    match sub {
        Sub::Branch(commands) => {
            let all = command_names(commands@);
            if words.len() == 0 {
                lemma_offers_member(all, Seq::empty(), n);
                let k = choose|k: int| 0 <= k < all.len() && word == #[trigger] all[k];
                assert(all[k] == commands@[k].name@);
                lemma_branch_takes_name(sub, word, start);
            } else if words[0].quoted {
            } else {
                let k = position(commands@, words[0], 0);
                if words[0].end < cursor && 0 <= k < commands@.len() {
                    let below = commands@[k].sub;
                    lemma_start_at_boundary(below, words.drop_first(), cursor, spaced);
                    lemma_put_keeps_first(words, cursor, start, word);
                    lemma_rest_in_order(words, cursor);
                    assert(after.drop_first() =~= put(words.drop_first(), start, word));
                    lemma_propose_put(below, words.drop_first(), cursor, spaced, n);
                    lemma_prepend_no_invalid(
                        Step::<T, A>::Command(commands@[k].id),
                        walk(below, after.drop_first()),
                    );
                } else if words.len() == 1 {
                    lemma_offers_member(all, words[0].text, n);
                    let k = choose|k: int| 0 <= k < all.len() && word == #[trigger] all[k];
                    assert(all[k] == commands@[k].name@);
                    assert(start == words[0].begin);
                    lemma_branch_takes_name(sub, word, start);
                }
            }
        },
        Sub::Params(fields, action) => {
            lemma_fields_put::<T, A>(fields@, action, words, cursor, spaced, n, true);
        },
        Sub::Terminal(_) => {},
    }
}

/// The line in which `word` and a space stand in place of all from `start`
/// on.
pub open spec fn spliced(prefix: Seq<char>, start: int, word: Seq<char>) -> Seq<char> {
    prefix.subrange(0, start) + word + seq![' ']
}

/// From `start` on, the line with `word` put in holds that word alone.
proof fn lemma_lex_at_start(prefix: Seq<char>, start: int, word: Seq<char>)
    requires
        0 <= start <= prefix.len(),
        is_word(word),
    ensures
        lex_from(spliced(prefix, start, word), start) == Some(seq![bare(word, start)]),
{
    let line = spliced(prefix, start, word);
    let stop = start + word.len();
    assert forall|k: int| start <= k < stop implies is_word_char(#[trigger] line[k]) by {
        assert(line[k] == word[k - start]);
    }
    assert(line[stop] == ' ');
    assert(line[start] == word[0]);
    lemma_word_end_is(line, start, stop);
    assert(line.subrange(start, stop) =~= word);
    assert(word_at(line, start) == bare(word, start));
    assert(lex_from(line, stop) == lex_from(line, stop + 1));
    assert(lex_from(line, stop + 1) == Some(Seq::<Lexeme>::empty()));
    assert(seq![bare(word, start)] + Seq::<Lexeme>::empty() =~= seq![bare(word, start)]);
}

/// The tokens of the line with `word` put in at a boundary are the tokens
/// before the boundary and `word`.
proof fn lemma_lex_spliced(prefix: Seq<char>, from: int, start: int, word: Seq<char>)
    requires
        0 <= from <= start <= prefix.len(),
        is_word(word),
        lex_from(prefix, from) is Some,
        at_boundary(lex_from(prefix, from)->0, prefix.len() as int, start),
    ensures
        lex_from(spliced(prefix, start, word), from) == Some(
            put(lex_from(prefix, from)->0, start, word),
        ),
    decreases prefix.len() - from,
{
    let line = spliced(prefix, start, word);
    let end = prefix.len() as int;
    let tokens = lex_from(prefix, from)->0;
    lemma_lex_from_placed(prefix, from);
    if from == start {
        lemma_lex_at_start(prefix, start, word);
        if tokens.len() > 0 {
            assert(from <= first_offset(tokens[0]));
        }
    } else {
        assert(line[from] == prefix[from]);
        if prefix[from] == ' ' {
            lemma_lex_spliced(prefix, from + 1, start, word);
        } else if is_quote(prefix[from]) {
            let close = quote_end(prefix, from + 1, prefix[from]);
            lemma_quote_end_bounds(prefix, from + 1, prefix[from]);
            let more = lex_from(prefix, close + 1)->0;
            assert(tokens =~= seq![quoted_at(prefix, from)] + more);
            assert(tokens[0] == quoted_at(prefix, from));
            assert(close < start && at_boundary(more, end, start)) by {
                if start != end {
                    let i = choose|i: int|
                        0 <= i < tokens.len() && start == (#[trigger] tokens[i]).begin
                            && !tokens[i].quoted;
                    assert(next_offset(tokens[0]) <= first_offset(tokens[i]));
                    assert(more[i - 1] == tokens[i]);
                }
            }
            assert forall|k: int| from + 1 <= k < close implies #[trigger] line[k] != prefix[from] by {
                assert(line[k] == prefix[k]);
            }
            assert(line[close] == prefix[close]);
            lemma_quote_end_is(line, from + 1, close, prefix[from]);
            assert(line.subrange(from + 1, close) =~= prefix.subrange(from + 1, close));
            assert(quoted_at(line, from) == quoted_at(prefix, from));
            lemma_lex_spliced(prefix, close + 1, start, word);
            assert(tokens.drop_first() =~= more);
        } else {
            let stop = word_end(prefix, from);
            lemma_word_end_bounds(prefix, from);
            lemma_word_end_bounds(prefix, from + 1);
            let more = lex_from(prefix, stop)->0;
            assert(tokens =~= seq![word_at(prefix, from)] + more);
            assert(tokens[0] == word_at(prefix, from));
            assert(stop <= start && (stop == start ==> start == end) && at_boundary(
                more,
                end,
                start,
            )) by {
                if start != end {
                    let i = choose|i: int|
                        0 <= i < tokens.len() && start == (#[trigger] tokens[i]).begin
                            && !tokens[i].quoted;
                    assert(next_offset(tokens[0]) <= first_offset(tokens[i]));
                    assert(placed(prefix, tokens[i]));
                    assert(is_word_char(prefix[tokens[i].begin]));
                    assert(more[i - 1] == tokens[i]);
                }
            }
            if stop < start {
                assert forall|k: int| from <= k < stop implies is_word_char(#[trigger] line[k]) by {
                    assert(line[k] == prefix[k]);
                }
                assert(line[stop] == prefix[stop]);
                lemma_word_end_is(line, from, stop);
                assert(line.subrange(from, stop) =~= prefix.subrange(from, stop));
                assert(word_at(line, from) == word_at(prefix, from));
                lemma_lex_spliced(prefix, stop, start, word);
                assert(tokens.drop_first() =~= more);
            } else {
                let last = start + word.len();
                assert forall|k: int| from <= k < last implies is_word_char(#[trigger] line[k]) by {
                    if k < start {
                        assert(line[k] == prefix[k]);
                    } else {
                        assert(line[k] == word[k - start]);
                    }
                }
                assert(line[last] == ' ');
                lemma_word_end_is(line, from, last);
                assert(line.subrange(from, last) =~= prefix.subrange(from, stop) + word);
                assert(lex_from(line, last) == lex_from(line, last + 1));
                assert(lex_from(line, last + 1) == Some(Seq::<Lexeme>::empty()));
                assert(seq![word_at(line, from)] + Seq::<Lexeme>::empty() =~= seq![
                    word_at(line, from),
                ]);
            }
        }
    }
}

/// What a candidate at a parameter list puts into the line is one bare word
/// and a space.
proof fn lemma_fields_candidate_is_word(
    fields: Seq<Param>,
    words: Seq<Lexeme>,
    cursor: int,
    spaced: bool,
    n: int,
)
    requires
        forall|i: int| 0 <= i < fields.len() ==> typable(#[trigger] fields[i]),
        0 <= n < propose_fields(fields, words, cursor, spaced).candidates.len(),
    ensures
        is_word(word_of(propose_fields(fields, words, cursor, spaced).candidates[n])),
        propose_fields(fields, words, cursor, spaced).candidates[n].replacement == word_of(
            propose_fields(fields, words, cursor, spaced).candidates[n],
        ) + seq![' '],
    decreases fields.len(),
{
    if fields.len() > 0 {
        assert(typable(fields[0]));
        let rest = fields.drop_first();
        assert forall|i: int| 0 <= i < rest.len() implies typable(#[trigger] rest[i]) by {
            assert(rest[i] == fields[i + 1]);
        }
        match fields[0] {
            Param::String(description) => {
                if words.len() == 0 {
                    let text = placeholder(description@).replacement;
                    let word = seq!['<'] + description@ + seq!['>'];
                    assert(text.drop_last() =~= word);
                    assert(text =~= word + seq![' ']);
                    assert forall|k: int| 0 <= k < word.len() implies is_word_char(
                        #[trigger] word[k],
                    ) by {
                        if 0 < k < word.len() - 1 {
                            assert(word[k] == description@[k - 1]);
                        }
                    }
                } else {
                    lemma_fields_candidate_is_word(rest, words.drop_first(), cursor, spaced, n);
                }
            },
            Param::Bool(yes, no) => {
                if words.len() == 0 {
                    lemma_word_of_offer(yes@);
                    lemma_word_of_offer(no@);
                } else if words[0].quoted {
                } else if (words[0].text == yes@ || words[0].text == no@) && words[0].end < cursor {
                    lemma_fields_candidate_is_word(rest, words.drop_first(), cursor, spaced, n);
                } else {
                    lemma_offers_member(seq![yes@, no@], words[0].text, n);
                }
            },
        }
    }
}

/// What a candidate puts into the line is one bare word and a space.
proof fn lemma_candidate_is_word<T: Id, A>(
    sub: Sub<T, A>,
    words: Seq<Lexeme>,
    cursor: int,
    spaced: bool,
    n: int,
)
    requires
        in_bare_words(sub),
        0 <= n < propose(sub, words, cursor, spaced).candidates.len(),
    ensures
        is_word(word_of(propose(sub, words, cursor, spaced).candidates[n])),
        propose(sub, words, cursor, spaced).candidates[n].replacement == word_of(
            propose(sub, words, cursor, spaced).candidates[n],
        ) + seq![' '],
    decreases words.len(),
{
    match sub {
        Sub::Branch(commands) => {
            let all = command_names(commands@);
            if words.len() == 0 {
                lemma_offers_member(all, Seq::empty(), n);
                let word = word_of(offers(all, Seq::empty())[n]);
                let k = choose|k: int| 0 <= k < all.len() && word == #[trigger] all[k];
                assert(all[k] == commands@[k].name@);
            } else if words[0].quoted {
            } else {
                let k = position(commands@, words[0], 0);
                if words[0].end < cursor && 0 <= k < commands@.len() {
                    assert(in_bare_words(commands@[k].sub));
                    lemma_candidate_is_word(commands@[k].sub, words.drop_first(), cursor, spaced, n);
                } else if words.len() == 1 {
                    lemma_offers_member(all, words[0].text, n);
                    let word = word_of(offers(all, words[0].text)[n]);
                    let k = choose|k: int| 0 <= k < all.len() && word == #[trigger] all[k];
                    assert(all[k] == commands@[k].name@);
                }
            }
        },
        Sub::Params(fields, _) => {
            lemma_fields_candidate_is_word(fields@, words, cursor, spaced, n);
        },
        Sub::Terminal(_) => {},
    }
}

/// Every candidate continues the line: where each name of the tree and what
/// completes each parameter can be typed as one bare word, the line with a
/// candidate put in place of all from the start offset on tokenizes, and the
/// walk of the tree against it holds no `Invalid`.
pub proof fn lemma_candidate_continues<T: Id, A>(root: Sub<T, A>, prefix: Seq<char>, n: int)
    requires
        in_bare_words(root),
        0 <= n < completion(root, prefix).candidates.len(),
    ensures
        0 <= completion(root, prefix).start <= prefix.len(),
        lex(
            prefix.subrange(0, completion(root, prefix).start) + completion(
                root,
                prefix,
            ).candidates[n].replacement,
        ) matches Some(words) && no_invalid(walk(root, words)),
{
    let found = completion(root, prefix);
    let cursor = prefix.len() as int;
    let spaced = prefix.len() > 0 && prefix.last() == ' ';
    let words = lex(prefix)->0;
    let word = word_of(found.candidates[n]);
    crate::completer::lemma_completion_starts_before_cursor(root, prefix);
    lemma_tokens_in_order(prefix);
    assert forall|i: int| 0 <= i < words.len() implies 0 <= (#[trigger] words[i]).begin
        <= words[i].end <= cursor && words[i].begin < cursor by {
        assert(placed(prefix, words[i]));
    }
    lemma_start_at_boundary(root, words, cursor, spaced);
    lemma_candidate_is_word(root, words, cursor, spaced, n);
    lemma_lex_spliced(prefix, 0, found.start, word);
    assert(spliced(prefix, found.start, word) =~= prefix.subrange(0, found.start)
        + found.candidates[n].replacement);
    lemma_propose_put(root, words, cursor, spaced, n);
}

} // verus!
