use audio_cli::grammar::{Action, CallbackParameter, Command, Id, Param, Sub};
use audio_cli::helper::CommandHelper;
use audio_cli::interpreter::{interpret, resolve};
use audio_cli::parser::Token;
use std::cell::RefCell;
use std::collections::VecDeque;
use std::fmt::{Display, Formatter};
use std::rc::Rc;

#[derive(Clone, Copy, Debug, PartialEq)]
enum Cmd {
    Help,
    Ap,
    Auto,
    Network,
    Add,
}

impl Display for Cmd {
    fn fmt(&self, f: &mut Formatter<'_>) -> std::fmt::Result {
        f.write_str(&format!("{:?}", self).to_lowercase())
    }
}

impl Id for Cmd {}

type Log = Rc<RefCell<Vec<String>>>;

struct Recorder {
    name: &'static str,
    log: Log,
}

fn render(params: &[CallbackParameter]) -> String {
    let parts: Vec<String> = params
        .iter()
        .map(|p| match p {
            CallbackParameter::String(text) => format!("{:?}", text),
            CallbackParameter::Bool(flag) => format!("{}", flag),
        })
        .collect();
    parts.join(",")
}

impl Action for Recorder {
    fn invoke(&self, params: Vec<CallbackParameter>) {
        self.log.borrow_mut().push(format!("{}({})", self.name, render(&params)));
    }
}

fn action(name: &'static str, log: &Log) -> Recorder {
    Recorder { name, log: log.clone() }
}

fn helper(log: &Log) -> CommandHelper<Cmd, Recorder> {
    CommandHelper::new(vec![
        Command::new(Cmd::Help, Sub::Terminal(action("help", log))),
        Command::new(
            Cmd::Ap,
            Sub::Branch(vec![Command::new(
                Cmd::Auto,
                Sub::Params(vec![Param::boolean("on", "off")], action("auto", log)),
            )]),
        ),
        Command::new(
            Cmd::Network,
            Sub::Branch(vec![Command::new(
                Cmd::Add,
                Sub::Params(vec![Param::string("ssid"), Param::string("key")], action("add", log)),
            )]),
        ),
    ])
}

fn run(line: &str) -> (bool, Vec<String>) {
    let log = Log::default();
    let helper = helper(&log);
    let ran = interpret(helper.parse(line).unwrap());
    let calls = log.borrow().clone();
    (ran, calls)
}

#[test]
fn resolved_line_runs_its_action_once() {
    assert_eq!(run("help"), (true, vec!["help()".to_string()]));
}

#[test]
fn parameters_are_handed_over_in_order() {
    assert_eq!(run("network add home secret"), (true, vec!["add(\"home\",\"secret\")".to_string()]));
    assert_eq!(run("network add \"my home\" ''"), (true, vec!["add(\"my home\",\"\")".to_string()]));
    assert_eq!(run("ap auto on"), (true, vec!["auto(true)".to_string()]));
    assert_eq!(run("ap auto off"), (true, vec!["auto(false)".to_string()]));
}

#[test]
fn invalid_step_runs_nothing() {
    assert_eq!(run("bogus"), (false, vec![]));
    assert_eq!(run("help me"), (false, vec![]));
    assert_eq!(run("ap auto maybe"), (false, vec![]));
    assert_eq!(run("network add home secret more"), (false, vec![]));
}

#[test]
fn missing_step_runs_nothing() {
    assert_eq!(run(""), (false, vec![]));
    assert_eq!(run("ap"), (false, vec![]));
    assert_eq!(run("ap auto"), (false, vec![]));
    assert_eq!(run("network add home"), (false, vec![]));
}

#[test]
fn no_terminal_runs_nothing() {
    let id = Cmd::Help;
    let tokens: VecDeque<Token<Cmd, Recorder>> = VecDeque::from([Token::Command(&id), Token::ParamBool(true)]);
    assert!(!interpret(tokens));
    let none: VecDeque<Token<Cmd, Recorder>> = VecDeque::new();
    assert!(resolve(none).is_none());
}

#[test]
fn two_terminals_run_nothing() {
    let log = Log::default();
    let first = action("first", &log);
    let second = action("second", &log);
    let tokens: VecDeque<Token<Cmd, Recorder>> = VecDeque::from([Token::Terminal(&first), Token::Terminal(&second)]);
    assert!(!interpret(tokens));
    assert!(log.borrow().is_empty());
}

#[test]
fn resolve_hands_out_the_action_and_the_values() {
    let log = Log::default();
    let stop = action("stop", &log);
    let id = Cmd::Add;
    let tokens: VecDeque<Token<Cmd, Recorder>> = VecDeque::from([
        Token::Command(&id),
        Token::ParamBool(false),
        Token::ParamString("x".to_string()),
        Token::Terminal(&stop),
        Token::ParamBool(true),
    ]);
    let call = resolve(tokens).unwrap();
    assert_eq!(render(&call.params), "false,\"x\",true");
    assert!(log.borrow().is_empty());
    call.action.invoke(call.params);
    assert_eq!(*log.borrow(), ["stop(false,\"x\",true)"]);
}
