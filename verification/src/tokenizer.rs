//! Quote-aware splitting of an input line into tokens with character offsets.

use std::collections::VecDeque;
use vstd::prelude::*;

verus! {

/// A lexical unit of an input line, as a mathematical value.
///
/// `begin` and `end` are character offsets into the line; for a quoted token
/// they exclude the delimiting quote characters.
pub struct Lexeme {
    pub text: Seq<char>,
    pub begin: int,
    pub end: int,
    pub quoted: bool,
}

/// A lexical unit of an input line.
#[derive(Debug, PartialEq, Eq)]
pub struct Token {
    pub text: String,
    pub begin: usize,
    pub end: usize,
    pub quoted: bool,
}

impl View for Token {
    type V = Lexeme;

    open spec fn view(&self) -> Lexeme {
        Lexeme { text: self.text@, begin: self.begin as int, end: self.end as int, quoted: self.quoted }
    }
}

impl Token {
    /// A token with the given text, offsets and quoted flag.
    pub fn new(text: &str, begin: usize, end: usize, quoted: bool) -> (token: Token)
        ensures
            token@ == (Lexeme { text: text@, begin: begin as int, end: end as int, quoted }),
    {
        Token { text: text.to_owned(), begin, end, quoted }
    }
}

/// The views of a sequence of tokens, in order.
pub open spec fn lexemes(tokens: Seq<Token>) -> Seq<Lexeme> {
    tokens.map_values(|t: Token| t@)
}

/// Taking the first token away takes the first view away.
pub proof fn lemma_lexemes_drop_first(tokens: Seq<Token>)
    requires
        tokens.len() > 0,
    ensures
        lexemes(tokens.subrange(1, tokens.len() as int)) == lexemes(tokens).drop_first(),
        lexemes(tokens)[0] == tokens[0]@,
{
    assert(lexemes(tokens.subrange(1, tokens.len() as int)) =~= lexemes(tokens).drop_first());
}

/// The two characters that open and close a quoted token.
pub open spec fn is_quote(c: char) -> bool {
    c == '"' || c == '\''
}

/// A character that may stand inside an unquoted token.
pub open spec fn is_word_char(c: char) -> bool {
    c != ' ' && !is_quote(c)
}

/// For an offset `from` in the line, the first offset at or after it that
/// does not hold a word character, or the length of the line if there is
/// none.
pub open spec fn word_end(line: Seq<char>, from: int) -> int
    decreases line.len() - from,
{
    if 0 <= from < line.len() && is_word_char(line[from]) {
        word_end(line, from + 1)
    } else {
        from
    }
}

/// For an offset `from` in the line, the first offset at or after it that
/// holds `delimiter`, or the length of the line if there is none.
pub open spec fn quote_end(line: Seq<char>, from: int, delimiter: char) -> int
    decreases line.len() - from,
{
    if 0 <= from < line.len() && line[from] != delimiter {
        quote_end(line, from + 1, delimiter)
    } else {
        from
    }
}

/// The end of an unquoted token lies in the line, after word characters
/// only, and holds none.
pub proof fn lemma_word_end_bounds(line: Seq<char>, from: int)
    requires
        0 <= from <= line.len(),
    ensures
        from <= word_end(line, from) <= line.len(),
        forall|k: int| from <= k < word_end(line, from) ==> is_word_char(#[trigger] line[k]),
        word_end(line, from) < line.len() ==> !is_word_char(line[word_end(line, from)]),
    decreases line.len() - from,
{
    if from < line.len() && is_word_char(line[from]) {
        lemma_word_end_bounds(line, from + 1);
    }
}

/// The end of a quoted token lies in the line, after characters other than
/// `delimiter`, and holds `delimiter` if it lies before the end of the line.
pub proof fn lemma_quote_end_bounds(line: Seq<char>, from: int, delimiter: char)
    requires
        0 <= from <= line.len(),
    ensures
        from <= quote_end(line, from, delimiter) <= line.len(),
        forall|k: int| from <= k < quote_end(line, from, delimiter) ==> #[trigger] line[k] != delimiter,
        quote_end(line, from, delimiter) < line.len() ==> line[quote_end(line, from, delimiter)]
            == delimiter,
    decreases line.len() - from,
{
    if from < line.len() && line[from] != delimiter {
        lemma_quote_end_bounds(line, from + 1, delimiter);
    }
}

/// An unquoted token ends at `stop` if word characters stand from `from` up
/// to `stop` and none stands at `stop`.
pub proof fn lemma_word_end_is(line: Seq<char>, from: int, stop: int)
    requires
        0 <= from <= stop <= line.len(),
        forall|k: int| from <= k < stop ==> is_word_char(#[trigger] line[k]),
        stop < line.len() ==> !is_word_char(line[stop]),
    ensures
        word_end(line, from) == stop,
    decreases stop - from,
{
    if from < stop {
        lemma_word_end_is(line, from + 1, stop);
    }
}

/// A quoted token ends at `stop` if `delimiter` stands at `stop` and nowhere
/// from `from` up to it.
pub proof fn lemma_quote_end_is(line: Seq<char>, from: int, stop: int, delimiter: char)
    requires
        0 <= from <= stop < line.len(),
        forall|k: int| from <= k < stop ==> #[trigger] line[k] != delimiter,
        line[stop] == delimiter,
    ensures
        quote_end(line, from, delimiter) == stop,
    decreases stop - from,
{
    if from < stop {
        lemma_quote_end_is(line, from + 1, stop, delimiter);
    }
}

/// The unquoted token that starts at `from`.
pub open spec fn word_at(line: Seq<char>, from: int) -> Lexeme {
    let stop = word_end(line, from);
    Lexeme { text: line.subrange(from, stop), begin: from, end: stop, quoted: false }
}

/// The quoted token whose opening quote stands at `open`.
pub open spec fn quoted_at(line: Seq<char>, open: int) -> Lexeme {
    let close = quote_end(line, open + 1, line[open]);
    Lexeme { text: line.subrange(open + 1, close), begin: open + 1, end: close, quoted: true }
}

/// `first` followed by `rest`, where `rest` may have failed.
pub open spec fn then_rest(first: Seq<Lexeme>, rest: Option<Seq<Lexeme>>) -> Option<Seq<Lexeme>> {
    match rest {
        Some(more) => Some(first + more),
        None => None,
    }
}

/// The tokens of `line` from offset `from` on, where `from` stands between
/// tokens; `None` if a quote is left open or a quote character follows an
/// unquoted token without a space between them.
pub open spec fn lex_from(line: Seq<char>, from: int) -> Option<Seq<Lexeme>>
    decreases line.len() - from,
{
    if from < 0 || from >= line.len() {
        Some(Seq::empty())
    } else if line[from] == ' ' {
        lex_from(line, from + 1)
    } else if is_quote(line[from]) {
        let close = quote_end(line, from + 1, line[from]);
        if close >= line.len() {
            None
        } else {
            proof {
                lemma_quote_end_bounds(line, from + 1, line[from]);
            }
            then_rest(seq![quoted_at(line, from)], lex_from(line, close + 1))
        }
    } else {
        let stop = word_end(line, from);
        if 0 <= stop < line.len() && is_quote(line[stop]) {
            None
        } else {
            proof {
                lemma_word_end_bounds(line, from + 1);
            }
            then_rest(seq![word_at(line, from)], lex_from(line, stop))
        }
    }
}

/// The tokens of a whole line.
pub open spec fn lex(line: Seq<char>) -> Option<Seq<Lexeme>> {
    lex_from(line, 0)
}

/// Whether `token` lies in `line` where it says: its text is the characters
/// between its offsets; a quoted token stands between two equal quote
/// characters and holds none of them; an unquoted token is not empty, holds
/// only word characters and ends at a space or at the end of the line.
pub open spec fn placed(line: Seq<char>, token: Lexeme) -> bool {
    &&& 0 <= token.begin <= token.end <= line.len()
    &&& token.text == line.subrange(token.begin, token.end)
    &&& if token.quoted {
        &&& 1 <= token.begin
        &&& token.end < line.len()
        &&& is_quote(line[token.begin - 1])
        &&& line[token.end] == line[token.begin - 1]
        &&& forall|k: int| token.begin <= k < token.end ==> #[trigger] line[k] != line[token.begin - 1]
    } else {
        &&& token.begin < token.end
        &&& forall|k: int| token.begin <= k < token.end ==> is_word_char(#[trigger] line[k])
        &&& token.end < line.len() ==> line[token.end] == ' '
    }
}

/// The offset at which a token starts in the line, its opening quote
/// included.
pub open spec fn first_offset(token: Lexeme) -> int {
    if token.quoted {
        token.begin - 1
    } else {
        token.begin
    }
}

/// The offset after a token in the line, its closing quote included.
pub open spec fn next_offset(token: Lexeme) -> int {
    if token.quoted {
        token.end + 1
    } else {
        token.end
    }
}

/// Every token that `lex_from` yields lies in the line where it says, at or
/// after `from`, and each one ends before the next one starts.
pub proof fn lemma_lex_from_placed(line: Seq<char>, from: int)
    requires
        0 <= from,
    ensures
        lex_from(line, from) matches Some(tokens) ==> {
            &&& forall|i: int| 0 <= i < tokens.len() ==> placed(line, #[trigger] tokens[i])
            &&& forall|i: int| 0 <= i < tokens.len() ==> from <= first_offset(#[trigger] tokens[i])
            &&& forall|i: int, j: int|
                0 <= i < j < tokens.len() ==> next_offset(#[trigger] tokens[i]) <= first_offset(
                    #[trigger] tokens[j],
                )
        },
    decreases line.len() - from,
{
    if from >= line.len() {
    } else if line[from] == ' ' {
        lemma_lex_from_placed(line, from + 1);
    } else if is_quote(line[from]) {
        let close = quote_end(line, from + 1, line[from]);
        lemma_quote_end_bounds(line, from + 1, line[from]);
        if close < line.len() {
            lemma_lex_from_placed(line, close + 1);
            if let Some(more) = lex_from(line, close + 1) {
                let first = quoted_at(line, from);
                let tokens = seq![first] + more;
                assert(placed(line, first));
                assert forall|i: int| 0 <= i < tokens.len() implies placed(line, #[trigger] tokens[i])
                    && from <= first_offset(tokens[i]) by {
                    if i > 0 {
                        assert(tokens[i] == more[i - 1]);
                    }
                }
                assert forall|i: int, j: int| 0 <= i < j < tokens.len() implies next_offset(
                    #[trigger] tokens[i],
                ) <= first_offset(#[trigger] tokens[j]) by {
                    assert(tokens[j] == more[j - 1]);
                    if i > 0 {
                        assert(tokens[i] == more[i - 1]);
                    }
                }
            }
        }
    } else {
        let stop = word_end(line, from);
        lemma_word_end_bounds(line, from);
        lemma_word_end_bounds(line, from + 1);
        if !(stop < line.len() && is_quote(line[stop])) {
            lemma_lex_from_placed(line, stop);
            if let Some(more) = lex_from(line, stop) {
                let first = word_at(line, from);
                let tokens = seq![first] + more;
                assert(placed(line, first));
                assert forall|i: int| 0 <= i < tokens.len() implies placed(line, #[trigger] tokens[i])
                    && from <= first_offset(tokens[i]) by {
                    if i > 0 {
                        assert(tokens[i] == more[i - 1]);
                    }
                }
                assert forall|i: int, j: int| 0 <= i < j < tokens.len() implies next_offset(
                    #[trigger] tokens[i],
                ) <= first_offset(#[trigger] tokens[j]) by {
                    assert(tokens[j] == more[j - 1]);
                    if i > 0 {
                        assert(tokens[i] == more[i - 1]);
                    }
                }
            }
        }
    }
}

/// The tokens of a line come in the order in which they stand in it, do not
/// overlap, and each holds the characters between its offsets: no space
/// outside quotes is part of a token.
pub proof fn lemma_tokens_in_order(line: Seq<char>)
    ensures
        lex(line) matches Some(tokens) ==> {
            &&& forall|i: int| 0 <= i < tokens.len() ==> placed(line, #[trigger] tokens[i])
            &&& forall|i: int, j: int|
                0 <= i < j < tokens.len() ==> (#[trigger] tokens[i]).end < (#[trigger] tokens[j]).begin
        },
{
    lemma_lex_from_placed(line, 0);
    if let Some(tokens) = lex(line) {
        assert forall|i: int, j: int| 0 <= i < j < tokens.len() implies (#[trigger] tokens[i]).end < (
        #[trigger] tokens[j]).begin by {
            assert(placed(line, tokens[i]));
            assert(placed(line, tokens[j]));
            assert(next_offset(tokens[i]) <= first_offset(tokens[j]));
            if !tokens[i].quoted && !tokens[j].quoted {
                assert(is_word_char(line[tokens[j].begin]));
            }
        }
    }
}

/// Where the scanner stands: between tokens, inside an unquoted token, or
/// inside a token opened by the given quote character.
#[derive(Clone, Copy)]
enum Status {
    Idle,
    Word,
    Quote(char),
}

/// What holds of the token in progress when the scanner has read `at`
/// characters of `line`.
spec fn in_progress(line: Seq<char>, at: int, status: Status, begin: int, text: Seq<char>) -> bool {
    match status {
        Status::Idle => text == Seq::<char>::empty(),
        Status::Word => {
            &&& 0 <= begin < at
            &&& is_word_char(line[begin])
            &&& word_end(line, begin) == word_end(line, at)
            &&& text == line.subrange(begin, at)
        },
        Status::Quote(delimiter) => {
            &&& 1 <= begin <= at
            &&& is_quote(delimiter)
            &&& line[begin - 1] == delimiter
            &&& quote_end(line, begin, delimiter) == quote_end(line, at, delimiter)
            &&& text == line.subrange(begin, at)
        },
    }
}

/// The tokens still to come when the scanner has read `at` characters.
spec fn to_come(line: Seq<char>, at: int, status: Status, begin: int) -> Option<Seq<Lexeme>> {
    match status {
        Status::Idle => lex_from(line, at),
        Status::Word => lex_from(line, begin),
        Status::Quote(_) => lex_from(line, begin - 1),
    }
}

proof fn lemma_then_rest_push(done: Seq<Token>, token: Token, rest: Option<Seq<Lexeme>>)
    ensures
        then_rest(lexemes(done), then_rest(seq![token@], rest)) == then_rest(
            lexemes(done.push(token)),
            rest,
        ),
{
    assert(lexemes(done.push(token)) =~= lexemes(done) + seq![token@]);
    if let Some(more) = rest {
        assert(lexemes(done) + (seq![token@] + more) =~= lexemes(done.push(token)) + more);
    }
}

/// Appends one character; `String::push` of the standard library.
#[verifier::external_body]
fn push_char(text: &mut String, c: char)
    ensures
        final(text)@ == old(text)@.push(c),
{
    text.push(c)
}

/// Splits `line` into its tokens.
///
/// Fails on an unterminated quote and on a quote character that follows an
/// unquoted token without a space between them.
pub fn tokenize(line: &str) -> (result: Option<VecDeque<Token>>)
    ensures
        match result {
            Some(tokens) => lex(line@) == Some(lexemes(tokens@)),
            None => lex(line@) is None,
        },
{
    let length = line.unicode_len();
    let mut status = Status::Idle;
    let mut tokens: VecDeque<Token> = VecDeque::new();
    let mut text = String::new();
    let mut begin: usize = 0;
    let mut i: usize = 0;
    let chars = line.chars();
    for c in iter: chars
        invariant
            iter.seq() == line@,
            i == iter.index(),
            length == line@.len(),
            in_progress(line@, i as int, status, begin as int, text@),
            lex(line@) == then_rest(lexemes(tokens@), to_come(line@, i as int, status, begin as int)),
    {
        assert(c == line@[i as int]);
        match status {
            Status::Idle => {
                if c == '"' || c == '\'' {
                    begin = i + 1;
                    status = Status::Quote(c);
                    assert(text@ =~= line@.subrange(begin as int, i + 1));
                } else if c != ' ' {
                    begin = i;
                    push_char(&mut text, c);
                    status = Status::Word;
                    assert(text@ =~= line@.subrange(begin as int, i + 1));
                }
            },
            Status::Word => {
                if c == '"' || c == '\'' {
                    return None;
                } else if c == ' ' {
                    let token = Token { text, begin, end: i, quoted: false };
                    proof {
                        lemma_then_rest_push(tokens@, token, lex_from(line@, i as int));
                    }
                    tokens.push_back(token);
                    text = String::new();
                    status = Status::Idle;
                } else {
                    push_char(&mut text, c);
                    assert(text@ =~= line@.subrange(begin as int, i + 1));
                }
            },
            Status::Quote(delimiter) => {
                if c == delimiter {
                    let token = Token { text, begin, end: i, quoted: true };
                    proof {
                        lemma_then_rest_push(tokens@, token, lex_from(line@, i + 1));
                    }
                    tokens.push_back(token);
                    text = String::new();
                    status = Status::Idle;
                } else {
                    push_char(&mut text, c);
                    assert(text@ =~= line@.subrange(begin as int, i + 1));
                }
            },
        }
        i = i + 1;
    }
    match status {
        Status::Idle => {
            assert(then_rest(lexemes(tokens@), Some(Seq::empty())) == Some(lexemes(tokens@))) by {
                assert(lexemes(tokens@) + Seq::<Lexeme>::empty() =~= lexemes(tokens@));
            }
        },
        Status::Word => {
            let token = Token { text, begin, end: length, quoted: false };
            proof {
                lemma_then_rest_push(tokens@, token, lex_from(line@, length as int));
                assert(lexemes(tokens@.push(token)) + Seq::<Lexeme>::empty() =~= lexemes(
                    tokens@.push(token),
                ));
            }
            tokens.push_back(token);
        },
        Status::Quote(_) => {
            return None;
        },
    }
    Some(tokens)
}

} // verus!
