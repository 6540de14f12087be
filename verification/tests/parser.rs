use audio_cli::grammar::{Action, CallbackParameter, Command, Id, Param, Sub};
use audio_cli::helper::CommandHelper;
use audio_cli::parser::{Error, Token};
use std::cell::RefCell;
use std::collections::VecDeque;
use std::fmt::{Display, Formatter};
use std::rc::Rc;

#[derive(Clone, Copy, Debug, PartialEq)]
enum Cmd {
    Help,
    Version,
    Ap,
    Auto,
    Network,
    List,
    Add,
    Delete,
}

impl Display for Cmd {
    fn fmt(&self, f: &mut Formatter<'_>) -> std::fmt::Result {
        f.write_str(&format!("{:?}", self).to_lowercase())
    }
}

impl Id for Cmd {}

type Log = Rc<RefCell<Vec<String>>>;

struct Named {
    name: &'static str,
    log: Log,
}

impl Action for Named {
    fn invoke(&self, _params: Vec<CallbackParameter>) {
        self.log.borrow_mut().push(self.name.to_string());
    }
}

fn action(name: &'static str, log: &Log) -> Named {
    Named { name, log: log.clone() }
}

fn helper(log: &Log) -> CommandHelper<Cmd, Named> {
    CommandHelper::new(vec![
        Command::new(Cmd::Help, Sub::Terminal(action("help", log))),
        Command::new(Cmd::Version, Sub::Terminal(action("version", log))),
        Command::new(
            Cmd::Ap,
            Sub::Branch(vec![Command::new(
                Cmd::Auto,
                Sub::Params(vec![Param::boolean("true", "false")], action("auto", log)),
            )]),
        ),
        Command::new(
            Cmd::Network,
            Sub::Branch(vec![
                Command::new(Cmd::List, Sub::Terminal(action("list", log))),
                Command::new(
                    Cmd::Add,
                    Sub::Params(vec![Param::string("ssid"), Param::string("key")], action("add", log)),
                ),
                Command::new(Cmd::Delete, Sub::Params(vec![Param::string("ssid")], action("delete", log))),
            ]),
        ),
    ])
}

/// Each step as text; a terminal is named by what its action logs.
fn shape(tokens: VecDeque<Token<Cmd, Named>>, log: &Log) -> Vec<String> {
    tokens
        .into_iter()
        .map(|token| match token {
            Token::Command(id) => format!("Command({:?})", id),
            Token::Terminal(action) => {
                log.borrow_mut().clear();
                action.invoke(Vec::new());
                format!("Terminal({})", log.borrow()[0])
            }
            Token::ParamString(text) => format!("ParamString({:?})", text),
            Token::ParamBool(flag) => format!("ParamBool({})", flag),
            Token::Missing => "Missing".to_string(),
            Token::Invalid => "Invalid".to_string(),
        })
        .collect()
}

fn parsed(line: &str) -> Vec<String> {
    let log = Log::default();
    let helper = helper(&log);
    let tokens = helper.parse(line).unwrap();
    shape(tokens, &log)
}

#[test]
fn parameters_then_the_terminal() {
    assert_eq!(
        parsed("network delete home"),
        ["Command(Network)", "Command(Delete)", "ParamString(\"home\")", "Terminal(delete)"]
    );
    assert_eq!(
        parsed("network add home secret"),
        ["Command(Network)", "Command(Add)", "ParamString(\"home\")", "ParamString(\"secret\")", "Terminal(add)"]
    );
}

#[test]
fn unknown_sub_command_invalidates_the_remainder() {
    assert_eq!(parsed("network bogus"), ["Command(Network)", "Invalid"]);
    assert_eq!(parsed("network bogus more words"), ["Command(Network)", "Invalid", "Invalid", "Invalid"]);
    assert_eq!(parsed("bogus"), ["Invalid"]);
    assert_eq!(parsed("bogus help"), ["Invalid", "Invalid"]);
}

#[test]
fn bad_literal_is_invalid_and_no_terminal_is_reached() {
    assert_eq!(parsed("ap auto maybe"), ["Command(Ap)", "Command(Auto)", "Invalid"]);
    assert_eq!(parsed("ap auto maybe x y"), ["Command(Ap)", "Command(Auto)", "Invalid", "Invalid", "Invalid"]);
    assert_eq!(parsed("ap auto True"), ["Command(Ap)", "Command(Auto)", "Invalid"]);
}

#[test]
fn literals_resolve_to_booleans() {
    assert_eq!(parsed("ap auto true"), ["Command(Ap)", "Command(Auto)", "ParamBool(true)", "Terminal(auto)"]);
    assert_eq!(parsed("ap auto false"), ["Command(Ap)", "Command(Auto)", "ParamBool(false)", "Terminal(auto)"]);
}

#[test]
fn literals_are_configuration() {
    let log = Log::default();
    let helper = CommandHelper::new(vec![Command::new(
        Cmd::Auto,
        Sub::Params(vec![Param::boolean("on", "off")], action("auto", &log)),
    )]);
    assert_eq!(shape(helper.parse("auto on").unwrap(), &log), ["Command(Auto)", "ParamBool(true)", "Terminal(auto)"]);
    assert_eq!(shape(helper.parse("auto off").unwrap(), &log), ["Command(Auto)", "ParamBool(false)", "Terminal(auto)"]);
    assert_eq!(shape(helper.parse("auto true").unwrap(), &log), ["Command(Auto)", "Invalid"]);
}

#[test]
fn line_that_ends_at_a_branch_is_missing() {
    assert_eq!(parsed(""), ["Missing"]);
    assert_eq!(parsed("   "), ["Missing"]);
    assert_eq!(parsed("network"), ["Command(Network)", "Missing"]);
    assert_eq!(parsed("ap"), ["Command(Ap)", "Missing"]);
}

#[test]
fn one_missing_for_the_first_absent_parameter() {
    assert_eq!(parsed("network add"), ["Command(Network)", "Command(Add)", "Missing"]);
    assert_eq!(parsed("network add home"), ["Command(Network)", "Command(Add)", "ParamString(\"home\")", "Missing"]);
    assert_eq!(parsed("ap auto"), ["Command(Ap)", "Command(Auto)", "Missing"]);
}

#[test]
fn tokens_after_the_terminal_are_invalid() {
    assert_eq!(parsed("help"), ["Command(Help)", "Terminal(help)"]);
    assert_eq!(parsed("help me now"), ["Command(Help)", "Terminal(help)", "Invalid", "Invalid"]);
    assert_eq!(parsed("network list all"), ["Command(Network)", "Command(List)", "Terminal(list)", "Invalid"]);
    assert_eq!(
        parsed("network delete home again"),
        ["Command(Network)", "Command(Delete)", "ParamString(\"home\")", "Terminal(delete)", "Invalid"]
    );
}

#[test]
fn quoted_token_never_names_a_command() {
    assert_eq!(parsed("\"help\""), ["Invalid"]);
    assert_eq!(parsed("network 'list'"), ["Command(Network)", "Invalid"]);
}

#[test]
fn quoted_token_is_a_parameter_like_any_other() {
    assert_eq!(
        parsed("network delete \"my home\""),
        ["Command(Network)", "Command(Delete)", "ParamString(\"my home\")", "Terminal(delete)"]
    );
    assert_eq!(
        parsed("network delete \"\""),
        ["Command(Network)", "Command(Delete)", "ParamString(\"\")", "Terminal(delete)"]
    );
    assert_eq!(parsed("ap auto 'true'"), ["Command(Ap)", "Command(Auto)", "ParamBool(true)", "Terminal(auto)"]);
}

#[test]
fn command_names_are_case_sensitive() {
    assert_eq!(parsed("Help"), ["Invalid"]);
    assert_eq!(parsed("hel"), ["Invalid"]);
    assert_eq!(parsed("helpp"), ["Invalid"]);
}

#[test]
fn first_of_two_commands_with_one_name_is_taken() {
    let log = Log::default();
    let helper = CommandHelper::new(vec![
        Command::new(Cmd::Help, Sub::Terminal(action("first", &log))),
        Command::new(Cmd::Help, Sub::Terminal(action("second", &log))),
    ]);
    assert_eq!(shape(helper.parse("help").unwrap(), &log), ["Command(Help)", "Terminal(first)"]);
}

#[test]
fn line_that_does_not_tokenize_is_an_error() {
    let log = Log::default();
    let helper = helper(&log);
    assert!(matches!(helper.parse("network delete \"home"), Err(Error::Parse)));
    assert!(matches!(helper.parse("net\"work"), Err(Error::Parse)));
    assert!(matches!(helper.parse("help '"), Err(Error::Parse)));
}

#[test]
fn parsing_invokes_no_action() {
    let log = Log::default();
    let helper = helper(&log);
    let _ = helper.parse("network delete home").unwrap();
    let _ = helper.parse("help").unwrap();
    assert!(log.borrow().is_empty());
}
