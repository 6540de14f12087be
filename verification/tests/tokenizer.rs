use audio_cli::tokenizer::{tokenize, Token};
use std::collections::VecDeque;

#[test]
fn test_tokenize() {
    assert_eq!(tokenize("a"), Some(VecDeque::from([Token::new("a", 0, 1, false)])));
    assert_eq!(tokenize("    a    b    "), Some(VecDeque::from([Token::new("a", 4, 5, false), Token::new("b", 9, 10, false)])));
    assert_eq!(tokenize("hello"), Some(VecDeque::from([Token::new("hello", 0, 5, false)])));
    assert_eq!(tokenize("  hello  "), Some(VecDeque::from([Token::new("hello", 2, 7, false)])));
    assert_eq!(tokenize("hello world"), Some(VecDeque::from([Token::new("hello", 0, 5, false), Token::new("world", 6, 11, false)])));
    assert_eq!(tokenize("hello  world"), Some(VecDeque::from([Token::new("hello", 0, 5, false), Token::new("world", 7, 12, false)])));
    assert_eq!(tokenize(" hello world "), Some(VecDeque::from([Token::new("hello", 1, 6, false), Token::new("world", 7, 12, false)])));
    assert_eq!(
        tokenize("say hello world"),
        Some(VecDeque::from([Token::new("say", 0, 3, false), Token::new("hello", 4, 9, false), Token::new("world", 10, 15, false)]))
    );
    assert_eq!(
        tokenize("say \"hello world\""),
        Some(VecDeque::from([Token::new("say", 0, 3, false), Token::new("hello world", 5, 16, true)]))
    );
    assert_eq!(
        tokenize("  say \"hello world\"  "),
        Some(VecDeque::from([Token::new("say", 2, 5, false), Token::new("hello world", 7, 18, true)]))
    );
    assert_eq!(
        tokenize("say \"hello world\" twice"),
        Some(VecDeque::from([Token::new("say", 0, 3, false), Token::new("hello world", 5, 16, true), Token::new("twice", 18, 23, false)]))
    );
    assert_eq!(
        tokenize("say \"nothing\" twice"),
        Some(VecDeque::from([Token::new("say", 0, 3, false), Token::new("nothing", 5, 12, true), Token::new("twice", 14, 19, false)]))
    );
    assert_eq!(
        tokenize("say \"\" twice"),
        Some(VecDeque::from([Token::new("say", 0, 3, false), Token::new("", 5, 5, true), Token::new("twice", 7, 12, false)]))
    );
    assert_eq!(tokenize("hello \"world"), None);
    assert_eq!(tokenize("hello\"world"), None);
}

fn tokens(items: &[(&str, usize, usize, bool)]) -> Option<VecDeque<Token>> {
    Some(items.iter().map(|&(text, begin, end, quoted)| Token::new(text, begin, end, quoted)).collect())
}

#[test]
fn unterminated_quote_fails() {
    assert_eq!(tokenize("a \"b"), None);
    assert_eq!(tokenize("'"), None);
    assert_eq!(tokenize("a 'b\""), None);
}

#[test]
fn quote_inside_a_bareword_fails() {
    assert_eq!(tokenize("a\"b"), None);
    assert_eq!(tokenize("a'b'"), None);
    assert_eq!(tokenize("ab\""), None);
}

#[test]
fn empty_quoted_token_is_kept() {
    let result = tokenize("say \"\" twice").unwrap();
    assert_eq!(result.len(), 3);
    assert_eq!(result[1].text, "");
    assert!(result[1].quoted);
    assert_eq!((result[1].begin, result[1].end), (5, 5));
}

#[test]
fn empty_line_has_no_tokens() {
    assert_eq!(tokenize(""), tokens(&[]));
    assert_eq!(tokenize("     "), tokens(&[]));
}

#[test]
fn other_quote_style_is_taken_verbatim() {
    assert_eq!(tokenize("'a \"b\" c'"), tokens(&[("a \"b\" c", 1, 8, true)]));
    assert_eq!(tokenize("\"it's\""), tokens(&[("it's", 1, 5, true)]));
}

#[test]
fn no_escape_sequences() {
    assert_eq!(tokenize("\"a\\\" b"), tokens(&[("a\\", 1, 3, true), ("b", 5, 6, false)]));
}

#[test]
fn word_may_follow_a_closing_quote() {
    assert_eq!(tokenize("\"ab\"cd"), tokens(&[("ab", 1, 3, true), ("cd", 4, 6, false)]));
    assert_eq!(tokenize("\"a\"'b'"), tokens(&[("a", 1, 2, true), ("b", 4, 5, true)]));
}

#[test]
fn offsets_count_characters() {
    assert_eq!(tokenize("é ü"), tokens(&[("é", 0, 1, false), ("ü", 2, 3, false)]));
    assert_eq!(tokenize("\"ñ\" añb"), tokens(&[("ñ", 1, 2, true), ("añb", 4, 7, false)]));
}

#[test]
fn tokens_come_in_order_and_do_not_overlap() {
    let line = "  one \"two three\"  'four'five ";
    let result = tokenize(line).unwrap();
    let chars: Vec<char> = line.chars().collect();
    let mut previous_end = 0;
    for (n, token) in result.iter().enumerate() {
        assert!(token.begin <= token.end);
        assert!(n == 0 || previous_end < token.begin);
        let slice: String = chars[token.begin..token.end].iter().collect();
        assert_eq!(slice, token.text);
        previous_end = token.end;
    }
    assert_eq!(result.len(), 4);
}

fn words(line: &str) -> Vec<(String, bool)> {
    tokenize(line).unwrap().into_iter().map(|token| (token.text, token.quoted)).collect()
}

/// The tokens written again: bare where they were bare, between quotes
/// where they were quoted, with one space between each two.
fn join(tokens: &[(String, bool)]) -> String {
    let written: Vec<String> = tokens
        .iter()
        .map(|(text, quoted)| {
            if !*quoted {
                text.clone()
            } else if text.contains('"') {
                format!("'{}'", text)
            } else {
                format!("\"{}\"", text)
            }
        })
        .collect();
    written.join(" ")
}

#[test]
fn well_formed_line_has_as_many_tokens_as_words() {
    assert_eq!(tokenize("one").unwrap().len(), 1);
    assert_eq!(tokenize("one two  three   four").unwrap().len(), 4);
    assert_eq!(tokenize(" \"one two\" 'three four' five ").unwrap().len(), 3);
    assert_eq!(tokenize("\"\" '' \"\"").unwrap().len(), 3);
    assert_eq!(tokenize("\"one\"two 'three'\"four\"").unwrap().len(), 4);
    assert_eq!(tokenize("'say \"hi\"' \"it's\"").unwrap().len(), 2);
    assert_eq!(
        words(" \"one two\" 'three four' five "),
        [("one two".to_string(), true), ("three four".to_string(), true), ("five".to_string(), false)]
    );
}

#[test]
fn joined_tokens_tokenize_to_the_same_words() {
    let lines = [
        "",
        "   ",
        "a",
        "  say   \"hello  world\"   twice  ",
        "'say \"hi\"' \"it's\" plain",
        "\"\" x ''",
        "\"ab\"cd 'ef'\"gh\"",
        "network add \"my home\" 'pass word'",
    ];
    for line in lines {
        let first = words(line);
        let joined = join(&first);
        let again = words(&joined);
        assert_eq!(again, first);
        assert_eq!(join(&again), joined);
    }
}

#[test]
fn joining_separates_what_stood_together() {
    assert_eq!(join(&words("\"ab\"cd 'e\"f'\"gh\"")), "\"ab\" cd 'e\"f' \"gh\"");
    assert_eq!(join(&words("  a   b ")), "a b");
}
