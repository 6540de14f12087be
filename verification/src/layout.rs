//! Lines put together from words and spaces, and what the tokenizer makes
//! of them.

use crate::tokenizer::{
    is_quote, is_word_char, lemma_lex_from_placed, lemma_quote_end_bounds, lemma_quote_end_is,
    lemma_word_end_bounds, lemma_word_end_is, lex, lex_from, placed, quote_end, quoted_at,
    word_at, word_end, Lexeme,
};
use vstd::prelude::*;

verus! {

/// A piece of a line: one space, a bare word, or a text between two equal
/// quote characters.
pub enum Piece {
    Space,
    Word(Seq<char>),
    Quoted(char, Seq<char>),
}

/// The characters a piece is written with.
pub open spec fn written(piece: Piece) -> Seq<char> {
    match piece {
        Piece::Space => seq![' '],
        Piece::Word(text) => text,
        Piece::Quoted(delimiter, text) => seq![delimiter] + text + seq![delimiter],
    }
}

/// The line that the pieces make, one after the other.
pub open spec fn spell(pieces: Seq<Piece>) -> Seq<char>
    decreases pieces.len(),
{
    if pieces.len() == 0 {
        Seq::empty()
    } else {
        written(pieces[0]) + spell(pieces.drop_first())
    }
}

/// Whether a piece is written as it must be: a word is not empty and holds
/// neither a space nor a quote character; a quoted text stands between quote
/// characters and holds none of the kind it stands between.
pub open spec fn sound(piece: Piece) -> bool {
    match piece {
        Piece::Space => true,
        Piece::Word(text) => text.len() > 0 && forall|k: int|
            0 <= k < text.len() ==> is_word_char(#[trigger] text[k]),
        Piece::Quoted(delimiter, text) => is_quote(delimiter) && forall|k: int|
            0 <= k < text.len() ==> #[trigger] text[k] != delimiter,
    }
}

/// Whether the pieces make a line with balanced quotes and no quote inside a
/// bare word: every piece is sound, and what follows a word is a space.
pub open spec fn well_formed(pieces: Seq<Piece>) -> bool {
    &&& forall|i: int| 0 <= i < pieces.len() ==> sound(#[trigger] pieces[i])
    &&& forall|i: int|
        0 <= i < pieces.len() - 1 && #[trigger] pieces[i] is Word ==> pieces[i + 1] is Space
}

/// The pieces that are not spaces, in order.
pub open spec fn words(pieces: Seq<Piece>) -> Seq<Piece>
    decreases pieces.len(),
{
    if pieces.len() == 0 {
        Seq::empty()
    } else if pieces[0] is Space {
        words(pieces.drop_first())
    } else {
        seq![pieces[0]] + words(pieces.drop_first())
    }
}

/// Whether `token` has the text of `piece` and is quoted if `piece` is.
pub open spec fn reads(token: Lexeme, piece: Piece) -> bool {
    match piece {
        Piece::Space => false,
        Piece::Word(text) => token.text == text && !token.quoted,
        Piece::Quoted(_, text) => token.text == text && token.quoted,
    }
}

/// `token`, moved right by `by` characters.
pub open spec fn moved(token: Lexeme, by: int) -> Lexeme {
    Lexeme { text: token.text, begin: token.begin + by, end: token.end + by, quoted: token.quoted }
}

/// Each of `tokens`, moved right by `by` characters.
pub open spec fn shifted(tokens: Seq<Lexeme>, by: int) -> Seq<Lexeme> {
    tokens.map_values(|t: Lexeme| moved(t, by))
}

/// The tokens of the line that the pieces make, with their offsets.
pub open spec fn tokens_of(pieces: Seq<Piece>) -> Seq<Lexeme>
    decreases pieces.len(),
{
    if pieces.len() == 0 {
        Seq::empty()
    } else {
        let rest = shifted(tokens_of(pieces.drop_first()), written(pieces[0]).len() as int);
        match pieces[0] {
            Piece::Space => rest,
            Piece::Word(text) => seq![
                Lexeme { text, begin: 0, end: text.len() as int, quoted: false },
            ] + rest,
            Piece::Quoted(_, text) => seq![
                Lexeme { text, begin: 1, end: text.len() as int + 1, quoted: true },
            ] + rest,
        }
    }
}

proof fn lemma_word_end_shift(head: Seq<char>, tail: Seq<char>, from: int)
    requires
        0 <= from,
    ensures
        word_end(head + tail, head.len() + from) == head.len() + word_end(tail, from),
    decreases tail.len() - from,
{
    if from < tail.len() {
        assert((head + tail)[head.len() + from] == tail[from]);
        if is_word_char(tail[from]) {
            lemma_word_end_shift(head, tail, from + 1);
        }
    }
}

proof fn lemma_quote_end_shift(head: Seq<char>, tail: Seq<char>, from: int, delimiter: char)
    requires
        0 <= from,
    ensures
        quote_end(head + tail, head.len() + from, delimiter) == head.len() + quote_end(
            tail,
            from,
            delimiter,
        ),
    decreases tail.len() - from,
{
    if from < tail.len() {
        assert((head + tail)[head.len() + from] == tail[from]);
        if tail[from] != delimiter {
            lemma_quote_end_shift(head, tail, from + 1, delimiter);
        }
    }
}

/// `tokens` moved right, where `tokens` may have failed.
pub open spec fn shifted_if(tokens: Option<Seq<Lexeme>>, by: int) -> Option<Seq<Lexeme>> {
    match tokens {
        Some(found) => Some(shifted(found, by)),
        None => None,
    }
}

/// The tokens of a line from an offset on are those of the rest of the line,
/// moved right: nothing before the offset is looked at.
proof fn lemma_lex_from_shift(head: Seq<char>, tail: Seq<char>, from: int)
    requires
        0 <= from,
    ensures
        lex_from(head + tail, head.len() + from) == shifted_if(lex_from(tail, from), head.len() as int),
    decreases tail.len() - from,
{
    let line = head + tail;
    let by = head.len() as int;
    if from >= tail.len() {
        assert(shifted(Seq::<Lexeme>::empty(), by) =~= Seq::<Lexeme>::empty());
    } else {
        assert(line[by + from] == tail[from]);
        if tail[from] == ' ' {
            lemma_lex_from_shift(head, tail, from + 1);
        } else if is_quote(tail[from]) {
            let close = quote_end(tail, from + 1, tail[from]);
            lemma_quote_end_shift(head, tail, from + 1, tail[from]);
            lemma_quote_end_bounds(tail, from + 1, tail[from]);
            if close < tail.len() {
                lemma_lex_from_shift(head, tail, close + 1);
                assert(line.subrange(by + from + 1, by + close) =~= tail.subrange(from + 1, close));
                assert(quoted_at(line, by + from) == moved(quoted_at(tail, from), by));
                if let Some(more) = lex_from(tail, close + 1) {
                    assert(seq![moved(quoted_at(tail, from), by)] + shifted(more, by) =~= shifted(
                        seq![quoted_at(tail, from)] + more,
                        by,
                    ));
                }
            }
        } else {
            let stop = word_end(tail, from);
            lemma_word_end_shift(head, tail, from);
            lemma_word_end_bounds(tail, from);
            lemma_word_end_bounds(tail, from + 1);
            if stop < tail.len() {
                assert(line[by + stop] == tail[stop]);
            }
            if !(stop < tail.len() && is_quote(tail[stop])) {
                lemma_lex_from_shift(head, tail, stop);
                assert(line.subrange(by + from, by + stop) =~= tail.subrange(from, stop));
                assert(word_at(line, by + from) == moved(word_at(tail, from), by));
                if let Some(more) = lex_from(tail, stop) {
                    assert(seq![moved(word_at(tail, from), by)] + shifted(more, by) =~= shifted(
                        seq![word_at(tail, from)] + more,
                        by,
                    ));
                }
            }
        }
    }
}

proof fn lemma_rest_well_formed(pieces: Seq<Piece>)
    requires
        well_formed(pieces),
        pieces.len() > 0,
    ensures
        well_formed(pieces.drop_first()),
{
    let rest = pieces.drop_first();
    assert forall|i: int| 0 <= i < rest.len() implies sound(#[trigger] rest[i]) by {
        assert(rest[i] == pieces[i + 1]);
    }
    assert forall|i: int| 0 <= i < rest.len() - 1 && #[trigger] rest[i] is Word implies rest[i
        + 1] is Space by {
        assert(rest[i] == pieces[i + 1]);
        assert(rest[i + 1] == pieces[i + 2]);
    }
}

/// A line made of well-formed pieces tokenizes, to the tokens of the pieces.
proof fn lemma_lex_spell(pieces: Seq<Piece>)
    requires
        well_formed(pieces),
    ensures
        lex(spell(pieces)) == Some(tokens_of(pieces)),
    decreases pieces.len(),
{
    if pieces.len() > 0 {
        let head = written(pieces[0]);
        let rest = pieces.drop_first();
        let tail = spell(rest);
        let line = head + tail;
        let by = head.len() as int;
        assert(sound(pieces[0]));
        lemma_rest_well_formed(pieces);
        lemma_lex_spell(rest);
        lemma_lex_from_shift(head, tail, 0);
        let after = shifted(tokens_of(rest), by);
        assert(lex_from(line, by) == Some(after));
        match pieces[0] {
            Piece::Space => {
                assert(line[0] == ' ');
            },
            Piece::Word(text) => {
                assert forall|k: int| 0 <= k < by implies is_word_char(#[trigger] line[k]) by {
                    assert(line[k] == text[k]);
                }
                if by < line.len() {
                    assert(rest.len() > 0);
                    assert(pieces[1] is Space);
                    assert(rest[0] == pieces[1]);
                    assert(tail[0] == ' ');
                    assert(line[by] == tail[0]);
                }
                lemma_word_end_is(line, 0, by);
                assert(line.subrange(0, by) =~= text);
            },
            Piece::Quoted(delimiter, text) => {
                assert(line[0] == delimiter);
                assert forall|k: int| 1 <= k < by - 1 implies #[trigger] line[k] != delimiter by {
                    assert(line[k] == text[k - 1]);
                }
                assert(line[by - 1] == delimiter);
                lemma_quote_end_is(line, 1, by - 1, delimiter);
                assert(line.subrange(1, by - 1) =~= text);
            },
        }
    }
}

proof fn lemma_shifted_reads(tokens: Seq<Lexeme>, by: int)
    ensures
        shifted(tokens, by).len() == tokens.len(),
        forall|i: int, piece: Piece|
            0 <= i < tokens.len() ==> (#[trigger] reads(shifted(tokens, by)[i], piece) == reads(
                tokens[i],
                piece,
            )),
{
}

/// The tokens of the pieces are as many as their words, and read them.
proof fn lemma_tokens_read_words(pieces: Seq<Piece>)
    ensures
        tokens_of(pieces).len() == words(pieces).len(),
        forall|i: int|
            0 <= i < words(pieces).len() ==> reads(
                #[trigger] tokens_of(pieces)[i],
                words(pieces)[i],
            ),
    decreases pieces.len(),
{
    if pieces.len() > 0 {
        let rest = pieces.drop_first();
        let by = written(pieces[0]).len() as int;
        lemma_tokens_read_words(rest);
        lemma_shifted_reads(tokens_of(rest), by);
        let after = shifted(tokens_of(rest), by);
        assert forall|i: int| 0 <= i < words(pieces).len() implies reads(
            #[trigger] tokens_of(pieces)[i],
            words(pieces)[i],
        ) by {
            if pieces[0] is Space {
                assert(reads(after[i], words(rest)[i]) == reads(tokens_of(rest)[i], words(rest)[i]));
            } else if i > 0 {
                assert(tokens_of(pieces)[i] == after[i - 1]);
                assert(words(pieces)[i] == words(rest)[i - 1]);
                assert(reads(after[i - 1], words(rest)[i - 1]) == reads(
                    tokens_of(rest)[i - 1],
                    words(rest)[i - 1],
                ));
            }
        }
    }
}

/// A line with balanced quotes and no quote inside a bare word tokenizes,
/// and it has as many tokens as words: the tokens read the words, in order.
pub proof fn lemma_well_formed_line_tokenizes(pieces: Seq<Piece>)
    requires
        well_formed(pieces),
    ensures
        lex(spell(pieces)) matches Some(tokens) && tokens.len() == words(pieces).len() && forall|
            i: int,
        |
            0 <= i < tokens.len() ==> reads(#[trigger] tokens[i], words(pieces)[i]),
{
    lemma_lex_spell(pieces);
    lemma_tokens_read_words(pieces);
}

/// A quote character that `text` can stand between: the double quote,
/// unless `text` holds one.
pub open spec fn delimiter_for(text: Seq<char>) -> char {
    if text.contains('"') {
        '\''
    } else {
        '"'
    }
}

/// The piece that writes `token` again: bare if it was bare, between quotes
/// if it was quoted.
pub open spec fn piece_of(token: Lexeme) -> Piece {
    if token.quoted {
        Piece::Quoted(delimiter_for(token.text), token.text)
    } else {
        Piece::Word(token.text)
    }
}

/// The pieces that write `tokens` again, with one space between each two.
pub open spec fn joined(tokens: Seq<Lexeme>) -> Seq<Piece>
    decreases tokens.len(),
{
    if tokens.len() == 0 {
        Seq::empty()
    } else if tokens.len() == 1 {
        seq![piece_of(tokens[0])]
    } else {
        seq![piece_of(tokens[0]), Piece::Space] + joined(tokens.drop_first())
    }
}

/// Whether two sequences of tokens have the same texts and quoted flags, in
/// order. Their offsets may differ.
pub open spec fn same_words(left: Seq<Lexeme>, right: Seq<Lexeme>) -> bool {
    &&& left.len() == right.len()
    &&& forall|i: int|
        0 <= i < left.len() ==> (#[trigger] left[i]).text == right[i].text && left[i].quoted
            == right[i].quoted
}

/// Whether a token can be written again: bare and made of word characters,
/// or quoted and without one of the two quote characters.
pub open spec fn writable(token: Lexeme) -> bool {
    sound(piece_of(token))
}

proof fn lemma_placed_is_writable(line: Seq<char>, token: Lexeme)
    requires
        placed(line, token),
    ensures
        writable(token),
{
    let text = token.text;
    if token.quoted {
        assert forall|k: int| 0 <= k < text.len() implies #[trigger] text[k] != delimiter_for(
            text,
        ) by {
            assert(text[k] == line[token.begin + k]);
            if text.contains('"') {
                let at = choose|i: int| 0 <= i < text.len() && text[i] == '"';
                assert(text[at] == line[token.begin + at]);
            }
        }
    } else {
        assert forall|k: int| 0 <= k < text.len() implies is_word_char(#[trigger] text[k]) by {
            assert(text[k] == line[token.begin + k]);
        }
    }
}

proof fn lemma_joined_well_formed(tokens: Seq<Lexeme>)
    requires
        forall|i: int| 0 <= i < tokens.len() ==> writable(#[trigger] tokens[i]),
    ensures
        well_formed(joined(tokens)),
        tokens.len() > 0 ==> joined(tokens).len() > 0 && joined(tokens)[0] == piece_of(tokens[0]),
    decreases tokens.len(),
{
    if tokens.len() == 1 {
        assert(writable(tokens[0]));
    } else if tokens.len() > 1 {
        let rest = tokens.drop_first();
        assert forall|i: int| 0 <= i < rest.len() implies writable(#[trigger] rest[i]) by {
            assert(rest[i] == tokens[i + 1]);
        }
        lemma_joined_well_formed(rest);
        let pieces = joined(tokens);
        let after = joined(rest);
        assert(writable(tokens[0]));
        assert forall|i: int| 0 <= i < pieces.len() implies sound(#[trigger] pieces[i]) by {
            if i >= 2 {
                assert(pieces[i] == after[i - 2]);
            }
        }
        assert forall|i: int| 0 <= i < pieces.len() - 1 && #[trigger] pieces[i] is Word implies pieces[i
            + 1] is Space by {
            if i >= 2 {
                assert(pieces[i] == after[i - 2]);
                assert(pieces[i + 1] == after[i - 1]);
            }
        }
    }
}

proof fn lemma_joined_words(tokens: Seq<Lexeme>)
    ensures
        words(joined(tokens)).len() == tokens.len(),
        forall|i: int|
            0 <= i < tokens.len() ==> #[trigger] words(joined(tokens))[i] == piece_of(tokens[i]),
    decreases tokens.len(),
{
    if tokens.len() == 1 {
        let pieces = joined(tokens);
        assert(pieces.drop_first() =~= Seq::<Piece>::empty());
        assert(words(pieces.drop_first()) =~= Seq::<Piece>::empty());
        assert(words(pieces) =~= seq![piece_of(tokens[0])]);
    } else if tokens.len() > 1 {
        let rest = tokens.drop_first();
        lemma_joined_words(rest);
        let pieces = joined(tokens);
        let spaced = pieces.drop_first();
        assert(spaced =~= seq![Piece::Space] + joined(rest));
        assert(spaced.drop_first() =~= joined(rest));
        assert(words(spaced) == words(joined(rest)));
        assert(words(pieces) =~= seq![piece_of(tokens[0])] + words(joined(rest)));
        assert forall|i: int| 0 <= i < tokens.len() implies #[trigger] words(pieces)[i] == piece_of(
            tokens[i],
        ) by {
            if i > 0 {
                assert(words(pieces)[i] == words(joined(rest))[i - 1]);
                assert(rest[i - 1] == tokens[i]);
            }
        }
    }
}

/// Tokens that can be written again, joined with single spaces, tokenize to
/// the same words.
pub proof fn lemma_joined_tokenizes(tokens: Seq<Lexeme>)
    requires
        forall|i: int| 0 <= i < tokens.len() ==> writable(#[trigger] tokens[i]),
    ensures
        lex(spell(joined(tokens))) matches Some(again) && same_words(again, tokens),
{
    lemma_joined_well_formed(tokens);
    lemma_well_formed_line_tokenizes(joined(tokens));
    lemma_joined_words(tokens);
    let again = lex(spell(joined(tokens)))->0;
    assert forall|i: int| 0 <= i < again.len() implies (#[trigger] again[i]).text == tokens[i].text
        && again[i].quoted == tokens[i].quoted by {
        assert(reads(again[i], words(joined(tokens))[i]));
        assert(words(joined(tokens))[i] == piece_of(tokens[i]));
    }
}

proof fn lemma_joined_same(left: Seq<Lexeme>, right: Seq<Lexeme>)
    requires
        same_words(left, right),
    ensures
        joined(left) == joined(right),
    decreases left.len(),
{
    if left.len() > 0 {
        assert(left[0].text == right[0].text && left[0].quoted == right[0].quoted);
        assert(piece_of(left[0]) == piece_of(right[0]));
        if left.len() > 1 {
            let l = left.drop_first();
            let r = right.drop_first();
            assert forall|i: int| 0 <= i < l.len() implies (#[trigger] l[i]).text == r[i].text
                && l[i].quoted == r[i].quoted by {
                assert(l[i] == left[i + 1]);
                assert(r[i] == right[i + 1]);
            }
            lemma_joined_same(l, r);
        }
    }
}

/// The tokens of a line, joined with single spaces and quoted again where
/// they were quoted, tokenize to the same words; and joining those gives the
/// same line once more.
pub proof fn lemma_tokenize_round_trip(line: Seq<char>)
    ensures
        lex(line) matches Some(tokens) ==> {
            &&& lex(spell(joined(tokens))) matches Some(again)
            &&& same_words(again, tokens)
            &&& spell(joined(again)) == spell(joined(tokens))
        },
{
    if let Some(tokens) = lex(line) {
        lemma_lex_from_placed(line, 0);
        assert forall|i: int| 0 <= i < tokens.len() implies writable(#[trigger] tokens[i]) by {
            lemma_placed_is_writable(line, tokens[i]);
        }
        lemma_joined_tokenizes(tokens);
        lemma_joined_same(lex(spell(joined(tokens)))->0, tokens);
    }
}

/// The pieces that `line` is made of from offset `from` on, where `from`
/// stands between tokens.
pub open spec fn pieces_from(line: Seq<char>, from: int) -> Seq<Piece>
    decreases line.len() - from,
{
    if from < 0 || from >= line.len() {
        Seq::empty()
    } else if line[from] == ' ' {
        seq![Piece::Space] + pieces_from(line, from + 1)
    } else if is_quote(line[from]) {
        let close = quote_end(line, from + 1, line[from]);
        if close >= line.len() {
            Seq::empty()
        } else {
            proof {
                lemma_quote_end_bounds(line, from + 1, line[from]);
            }
            seq![Piece::Quoted(line[from], line.subrange(from + 1, close))] + pieces_from(
                line,
                close + 1,
            )
        }
    } else {
        let stop = word_end(line, from);
        proof {
            lemma_word_end_bounds(line, from + 1);
        }
        seq![Piece::Word(line.subrange(from, stop))] + pieces_from(line, stop)
    }
}

proof fn lemma_prepend_well_formed(first: Piece, rest: Seq<Piece>)
    requires
        sound(first),
        well_formed(rest),
        first is Word && rest.len() > 0 ==> rest[0] is Space,
    ensures
        well_formed(seq![first] + rest),
        spell(seq![first] + rest) == written(first) + spell(rest),
{
    let pieces = seq![first] + rest;
    assert(pieces.drop_first() =~= rest);
    assert forall|i: int| 0 <= i < pieces.len() implies sound(#[trigger] pieces[i]) by {
        if i > 0 {
            assert(pieces[i] == rest[i - 1]);
        }
    }
    assert forall|i: int| 0 <= i < pieces.len() - 1 && #[trigger] pieces[i] is Word implies pieces[i
        + 1] is Space by {
        assert(pieces[i + 1] == rest[i]);
        if i > 0 {
            assert(pieces[i] == rest[i - 1]);
        }
    }
}

proof fn lemma_pieces_from(line: Seq<char>, from: int)
    requires
        0 <= from <= line.len(),
        lex_from(line, from) is Some,
    ensures
        well_formed(pieces_from(line, from)),
        spell(pieces_from(line, from)) == line.subrange(from, line.len() as int),
        from < line.len() && line[from] == ' ' ==> pieces_from(line, from).len() > 0 && pieces_from(
            line,
            from,
        )[0] is Space,
    decreases line.len() - from,
{
    let end = line.len() as int;
    if from >= line.len() {
        assert(line.subrange(from, end) =~= Seq::<char>::empty());
    } else if line[from] == ' ' {
        lemma_pieces_from(line, from + 1);
        lemma_prepend_well_formed(Piece::Space, pieces_from(line, from + 1));
        assert(seq![' '] + line.subrange(from + 1, end) =~= line.subrange(from, end));
    } else if is_quote(line[from]) {
        let close = quote_end(line, from + 1, line[from]);
        lemma_quote_end_bounds(line, from + 1, line[from]);
        let text = line.subrange(from + 1, close);
        let first = Piece::Quoted(line[from], text);
        assert forall|k: int| 0 <= k < text.len() implies #[trigger] text[k] != line[from] by {
            assert(text[k] == line[from + 1 + k]);
        }
        lemma_pieces_from(line, close + 1);
        lemma_prepend_well_formed(first, pieces_from(line, close + 1));
        assert(written(first) + line.subrange(close + 1, end) =~= line.subrange(from, end));
    } else {
        let stop = word_end(line, from);
        lemma_word_end_bounds(line, from);
        lemma_word_end_bounds(line, from + 1);
        let text = line.subrange(from, stop);
        let first = Piece::Word(text);
        assert forall|k: int| 0 <= k < text.len() implies is_word_char(#[trigger] text[k]) by {
            assert(text[k] == line[from + k]);
        }
        lemma_pieces_from(line, stop);
        lemma_prepend_well_formed(first, pieces_from(line, stop));
        assert(written(first) + line.subrange(stop, end) =~= line.subrange(from, end));
    }
}

/// A line that tokenizes is made of well-formed pieces: no other line has
/// balanced quotes and no quote inside a bare word.
pub proof fn lemma_tokenizable_line_is_well_formed(line: Seq<char>)
    requires
        lex(line) is Some,
    ensures
        well_formed(pieces_from(line, 0)),
        spell(pieces_from(line, 0)) == line,
{
    lemma_pieces_from(line, 0);
    assert(line.subrange(0, line.len() as int) =~= line);
}

} // verus!
