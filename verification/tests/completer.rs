use audio_cli::completer::{starts_with, Candidate};
use audio_cli::grammar::{Action, CallbackParameter, Command, Id, Param, Sub};
use audio_cli::helper::CommandHelper;
use audio_cli::parser::Token;
use std::fmt::{Display, Formatter};

#[derive(Clone, Copy, Debug, PartialEq)]
enum Cmd {
    Help,
    Version,
    Ap,
    Auto,
    Network,
    List,
    Add,
    Delete,
}

impl Display for Cmd {
    fn fmt(&self, f: &mut Formatter<'_>) -> std::fmt::Result {
        f.write_str(&format!("{:?}", self).to_lowercase())
    }
}

impl Id for Cmd {}

struct Nop;

impl Action for Nop {
    fn invoke(&self, _params: Vec<CallbackParameter>) {}
}

fn nop() -> Nop {
    Nop
}

fn helper() -> CommandHelper<Cmd, Nop> {
    CommandHelper::new(vec![
        Command::new(Cmd::Help, Sub::Terminal(nop())),
        Command::new(Cmd::Version, Sub::Terminal(nop())),
        Command::new(
            Cmd::Ap,
            Sub::Branch(vec![Command::new(Cmd::Auto, Sub::Params(vec![Param::boolean("true", "false")], nop()))]),
        ),
        Command::new(
            Cmd::Network,
            Sub::Branch(vec![
                Command::new(Cmd::List, Sub::Terminal(nop())),
                Command::new(Cmd::Add, Sub::Params(vec![Param::string("ssid"), Param::string("key")], nop())),
                Command::new(Cmd::Delete, Sub::Params(vec![Param::string("ssid")], nop())),
            ]),
        ),
    ])
}

fn offer(name: &str) -> Candidate {
    Candidate { display: name.to_string(), replacement: format!("{} ", name) }
}

fn placeholder(description: &str) -> Candidate {
    Candidate { display: format!("<{}> ", description), replacement: format!("<{}> ", description) }
}

fn at_end(line: &str) -> (usize, Vec<Candidate>) {
    helper().complete(line, line.chars().count())
}

#[test]
fn partial_sub_command_is_completed() {
    assert_eq!(helper().complete("ap au", 5), (3, vec![offer("auto")]));
}

#[test]
fn placeholder_for_the_next_free_parameter() {
    assert_eq!(helper().complete("network add home ", 17), (17, vec![placeholder("key")]));
    assert_eq!(helper().complete("network add ", 12), (12, vec![placeholder("ssid")]));
    assert_eq!(helper().complete("network delete ", 15), (15, vec![placeholder("ssid")]));
}

#[test]
fn partial_literal_is_completed() {
    assert_eq!(helper().complete("ap auto tr", 10), (8, vec![offer("true")]));
    assert_eq!(helper().complete("ap auto f", 9), (8, vec![offer("false")]));
}

#[test]
fn empty_line_offers_every_command() {
    let all = vec![offer("help"), offer("version"), offer("ap"), offer("network")];
    assert_eq!(helper().complete("", 0), (0, all));
}

#[test]
fn space_after_a_command_offers_its_sub_commands() {
    assert_eq!(at_end("network "), (8, vec![offer("list"), offer("add"), offer("delete")]));
    assert_eq!(at_end("network   "), (10, vec![offer("list"), offer("add"), offer("delete")]));
    assert_eq!(at_end("ap "), (3, vec![offer("auto")]));
}

#[test]
fn command_without_a_space_after_it_is_still_being_typed() {
    assert_eq!(at_end("network"), (0, vec![offer("network")]));
    assert_eq!(at_end("  ap"), (2, vec![offer("ap")]));
    assert_eq!(at_end("network add"), (8, vec![offer("add")]));
}

#[test]
fn candidates_keep_the_order_of_the_grammar() {
    let helper = CommandHelper::new(vec![
        Command::new(Cmd::Add, Sub::Terminal(nop())),
        Command::new(Cmd::Version, Sub::Terminal(nop())),
        Command::new(Cmd::Ap, Sub::Terminal(nop())),
        Command::new(Cmd::Auto, Sub::Terminal(nop())),
    ]);
    assert_eq!(helper.complete("a", 1), (0, vec![offer("add"), offer("ap"), offer("auto")]));
}

#[test]
fn word_that_begins_no_command_has_no_candidate_but_its_offset() {
    assert_eq!(at_end("x"), (0, vec![]));
    assert_eq!(at_end("network x"), (8, vec![]));
}

#[test]
fn unknown_word_before_the_last_ends_the_completion() {
    assert_eq!(at_end("bogus li"), (0, vec![]));
    assert_eq!(at_end("net list"), (0, vec![]));
}

#[test]
fn quoted_word_is_never_completed() {
    assert_eq!(at_end("\"he\""), (0, vec![]));
    assert_eq!(at_end("network \"li\""), (0, vec![]));
    assert_eq!(at_end("ap auto \"tr\""), (0, vec![]));
}

#[test]
fn line_that_does_not_tokenize_has_no_candidate() {
    assert_eq!(at_end("network \"li"), (0, vec![]));
    assert_eq!(at_end("net\"work"), (0, vec![]));
}

#[test]
fn only_the_part_before_the_cursor_counts() {
    assert_eq!(helper().complete("network list", 3), (0, vec![offer("network")]));
    assert_eq!(helper().complete("network list", 8), (8, vec![offer("list"), offer("add"), offer("delete")]));
    assert_eq!(helper().complete("network \"li", 8), (8, vec![offer("list"), offer("add"), offer("delete")]));
    assert_eq!(helper().complete("help", 0), (0, vec![offer("help"), offer("version"), offer("ap"), offer("network")]));
}

#[test]
fn free_parameter_in_progress_has_no_candidate() {
    assert_eq!(at_end("network add ho"), (0, vec![]));
    assert_eq!(at_end("network add home ke"), (0, vec![]));
}

#[test]
fn nothing_follows_a_filled_parameter_list() {
    assert_eq!(at_end("network add home key "), (0, vec![]));
    assert_eq!(at_end("network delete home "), (0, vec![]));
    assert_eq!(at_end("ap auto true "), (0, vec![]));
}

#[test]
fn nothing_follows_a_terminal() {
    assert_eq!(at_end("help "), (0, vec![]));
    assert_eq!(at_end("network list "), (0, vec![]));
    assert_eq!(at_end("help me"), (0, vec![]));
}

#[test]
fn boolean_parameter_without_a_word_offers_both_spellings() {
    assert_eq!(at_end("ap auto "), (8, vec![offer("true"), offer("false")]));
}

#[test]
fn whole_literal_without_a_space_after_it_is_still_offered() {
    assert_eq!(at_end("ap auto true"), (8, vec![offer("true")]));
    assert_eq!(at_end("ap auto false"), (8, vec![offer("false")]));
}

#[test]
fn word_that_begins_no_literal_has_no_candidate() {
    assert_eq!(at_end("ap auto maybe"), (0, vec![]));
    assert_eq!(at_end("ap auto truex"), (0, vec![]));
}

#[test]
fn word_that_begins_both_literals_offers_both() {
    let helper = CommandHelper::new(vec![Command::new(
        Cmd::Auto,
        Sub::Params(vec![Param::boolean("on", "off"), Param::string("why")], nop()),
    )]);
    assert_eq!(helper.complete("auto o", 6), (5, vec![offer("on"), offer("off")]));
    assert_eq!(helper.complete("auto of", 7), (5, vec![offer("off")]));
    assert_eq!(helper.complete("auto on ", 8), (8, vec![placeholder("why")]));
    assert_eq!(helper.complete("auto on", 7), (5, vec![offer("on")]));
}

#[test]
fn completion_offsets_count_characters() {
    let helper = CommandHelper::new(vec![Command::new(
        Cmd::Add,
        Sub::Params(vec![Param::string("ssid"), Param::boolean("true", "false")], nop()),
    )]);
    assert_eq!(helper.complete("add café t", 10), (9, vec![offer("true")]));
    assert_eq!(helper.complete("add café ", 9), (9, vec![offer("true"), offer("false")]));
    assert_eq!(helper.complete("add café true", 8), (8, vec![offer("true"), offer("false")]));
}

#[test]
fn prefix_test() {
    assert!(starts_with("network", ""));
    assert!(starts_with("network", "net"));
    assert!(starts_with("network", "network"));
    assert!(!starts_with("network", "networks"));
    assert!(!starts_with("network", "nex"));
    assert!(!starts_with("", "n"));
    assert!(starts_with("", ""));
    assert!(starts_with("über", "ü"));
}

/// The line with a candidate put in place of all from `start` up to the
/// cursor.
fn put(line: &str, cursor: usize, start: usize, candidate: &Candidate) -> String {
    assert!(start <= cursor);
    let kept: String = line.chars().take(start).collect();
    kept + &candidate.replacement
}

#[test]
fn every_candidate_continues_the_line() {
    let helper = CommandHelper::new(vec![
        Command::new(Cmd::Help, Sub::Terminal(nop())),
        Command::new(
            Cmd::Ap,
            Sub::Branch(vec![Command::new(Cmd::Auto, Sub::Params(vec![Param::boolean("on", "off")], nop()))]),
        ),
        Command::new(
            Cmd::Network,
            Sub::Branch(vec![
                Command::new(Cmd::List, Sub::Terminal(nop())),
                Command::new(
                    Cmd::Add,
                    Sub::Params(vec![Param::string("ssid"), Param::boolean("on", "off"), Param::string("key")], nop()),
                ),
            ]),
        ),
    ]);
    let lines = [
        "network add home off secret",
        "network add \"my home\"on secret",
        "net ",
        "ap auto o x",
        "  ap   auto  ",
        "network add 'a b' o",
        "help",
    ];
    let mut tried = 0;
    for line in lines {
        for cursor in 0..=line.chars().count() {
            let (start, candidates) = helper.complete(line, cursor);
            for candidate in &candidates {
                let continued = put(line, cursor, start, candidate);
                let steps = helper.parse(&continued).unwrap();
                assert!(steps.iter().all(|step| !matches!(step, Token::Invalid)), "{:?}", continued);
                tried += 1;
            }
        }
    }
    assert!(tried > 50);
}

#[test]
fn candidate_after_a_free_word_joins_it() {
    let helper = CommandHelper::new(vec![Command::new(
        Cmd::Add,
        Sub::Params(vec![Param::string("ssid"), Param::boolean("on", "off")], nop()),
    )]);
    let (start, candidates) = helper.complete("add home", 8);
    assert_eq!((start, candidates.len()), (8, 2));
    assert_eq!(put("add home", 8, start, &candidates[0]), "add homeon ");
}
