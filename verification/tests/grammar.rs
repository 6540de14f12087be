use audio_cli::grammar::{is_well_formed, Command, Id, Param, Sub};
use std::fmt::{Display, Formatter};

#[derive(Clone, Debug, PartialEq)]
struct Name(&'static str);

impl Display for Name {
    fn fmt(&self, f: &mut Formatter<'_>) -> std::fmt::Result {
        f.write_str(self.0)
    }
}

impl Id for Name {}

fn leaf(name: &'static str) -> Command<Name, u8> {
    Command::new(Name(name), Sub::Terminal(0))
}

fn branch(name: &'static str, below: Vec<Command<Name, u8>>) -> Command<Name, u8> {
    Command::new(Name(name), Sub::Branch(below))
}

#[test]
fn command_is_named_by_what_its_id_displays() {
    let command = leaf("network");
    assert_eq!(command.name, "network");
    assert_eq!(command.id, Name("network"));
    assert!(matches!(command.sub, Sub::Terminal(0)));
}

#[test]
fn parameters_keep_what_they_are_made_with() {
    assert!(matches!(Param::string("ssid"), Param::String(text) if text == "ssid"));
    assert!(matches!(Param::boolean("on", "off"), Param::Bool(yes, no) if yes == "on" && no == "off"));
}

#[test]
fn distinct_names_are_well_formed() {
    assert!(is_well_formed(&Sub::<Name, u8>::Branch(vec![])));
    assert!(is_well_formed(&Sub::<Name, u8>::Terminal(1)));
    assert!(is_well_formed(&Sub::<Name, u8>::Params(vec![Param::string("x"), Param::string("x")], 1)));
    assert!(is_well_formed(&Sub::Branch(vec![
        leaf("help"),
        branch("ap", vec![leaf("auto")]),
        branch("network", vec![leaf("list"), leaf("add"), leaf("delete")]),
    ])));
}

#[test]
fn one_name_may_stand_in_two_branches() {
    assert!(is_well_formed(&Sub::Branch(vec![
        branch("ap", vec![leaf("list")]),
        branch("network", vec![leaf("list"), leaf("network")]),
    ])));
}

#[test]
fn one_name_twice_in_a_branch_is_not_well_formed() {
    assert!(!is_well_formed(&Sub::Branch(vec![leaf("help"), leaf("version"), leaf("help")])));
    assert!(!is_well_formed(&Sub::Branch(vec![leaf("a"), leaf("a")])));
    assert!(!is_well_formed(&Sub::Branch(vec![
        leaf("help"),
        branch("network", vec![leaf("list"), leaf("add"), leaf("list")]),
    ])));
    assert!(!is_well_formed(&Sub::Branch(vec![branch(
        "a",
        vec![branch("b", vec![branch("c", vec![leaf("d"), leaf("e"), leaf("d")])])]
    )])));
}
