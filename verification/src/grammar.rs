//! The grammar tree: named commands that lead to sub-commands, to a fixed
//! list of parameters, or to a terminal action.

use std::fmt::Display;
use vstd::prelude::*;
use vstd::string::to_string_from_display_ensures;

verus! {

/// The identifier of a command. The text it displays as is the name an
/// operator types.
pub trait Id: Display + Clone {

}

/// A resolved parameter value, as handed to a terminal action.
pub enum CallbackParameter {
    String(String),
    Bool(bool),
}

/// A resolved parameter value, as a mathematical value.
pub enum Value {
    String(Seq<char>),
    Bool(bool),
}

impl View for CallbackParameter {
    type V = Value;

    open spec fn view(&self) -> Value {
        match self {
            CallbackParameter::String(text) => Value::String(text@),
            CallbackParameter::Bool(flag) => Value::Bool(*flag),
        }
    }
}

/// What a terminal of the grammar does with the resolved parameters. The
/// grammar never looks inside an action; it only hands it out.
pub trait Action {
    fn invoke(&self, params: Vec<CallbackParameter>);
}

/// One parameter of a command.
pub enum Param {
    /// Any token, taken verbatim; the text describes the parameter.
    String(String),
    /// One of two literal spellings: the first stands for `true`, the second
    /// for `false`.
    Bool(String, String),
}

impl Param {
    /// A free parameter with the given description.
    pub fn string(description: &str) -> (param: Param)
        ensures
            param matches Param::String(text) && text@ == description@,
    {
        Param::String(description.to_owned())
    }

    /// A boolean parameter spelled `yes` for `true` and `no` for `false`.
    pub fn boolean(yes: &str, no: &str) -> (param: Param)
        ensures
            param matches Param::Bool(first, second) && first@ == yes@ && second@ == no@,
    {
        Param::Bool(yes.to_owned(), no.to_owned())
    }
}

/// What a command leads to. `A` is the type of the actions that the
/// terminals carry; the tree owns them.
pub enum Sub<T: Id, A> {
    /// Named sub-commands, tried in order.
    Branch(Vec<Command<T, A>>),
    /// A fixed list of parameters, then the action that takes them.
    Params(Vec<Param>, A),
    /// The end of the path.
    Terminal(A),
}

/// A named node of the grammar tree.
pub struct Command<T: Id, A> {
    pub id: T,
    /// The text `id` displayed as when the command was made.
    pub name: String,
    pub sub: Sub<T, A>,
}

impl<T: Id, A> Command<T, A> {
    /// A command named by what `id` displays as.
    pub fn new(id: T, sub: Sub<T, A>) -> (command: Command<T, A>)
        ensures
            command.id == id,
            command.sub == sub,
            to_string_from_display_ensures::<T>(&id, command.name),
    {
        let name = id.to_string();
        Command { id, name, sub }
    }
}

/// Whether no two of `commands` have one name.
pub open spec fn distinct_names<T: Id, A>(commands: Seq<Command<T, A>>) -> bool {
    forall|i: int, j: int|
        0 <= i < j < commands.len() ==> (#[trigger] commands[i]).name@ != (#[trigger] commands[j]).name@
}

/// Whether names are unique within every branch of the tree, from `sub` down.
pub open spec fn well_formed<T: Id, A>(sub: Sub<T, A>) -> bool
    decreases sub,
{
    match sub {
        Sub::Branch(commands) => {
            &&& distinct_names(commands@)
            &&& forall|i: int|
                0 <= i < commands@.len() ==> well_formed((#[trigger] commands@[i]).sub)
        },
        Sub::Params(_, _) => true,
        Sub::Terminal(_) => true,
    }
}

/// Whether none of the first `upto` commands has the name of the command at
/// `upto`.
fn is_new_name<T: Id, A>(commands: &Vec<Command<T, A>>, upto: usize) -> (result: bool)
    requires
        upto < commands.len(),
    ensures
        result == forall|i: int|
            0 <= i < upto ==> (#[trigger] commands@[i]).name@ != commands@[upto as int].name@,
{
    let mut i: usize = 0;
    while i < upto
        invariant
            i <= upto < commands.len(),
            forall|k: int|
                0 <= k < i ==> (#[trigger] commands@[k]).name@ != commands@[upto as int].name@,
        decreases upto - i,
    {
        if commands[i].name == commands[upto].name {
            return false;
        }
        i = i + 1;
    }
    true
}

/// Checks that names are unique within every branch of the tree.
pub fn is_well_formed<T: Id, A>(sub: &Sub<T, A>) -> (result: bool)
    ensures
        result == well_formed(*sub),
    decreases sub,
{
    match sub {
        Sub::Branch(commands) => {
            let mut k: usize = 0;
            while k < commands.len()
                invariant
                    k <= commands.len(),
                    *sub == Sub::Branch(*commands),
                    distinct_names(commands@.take(k as int)),
                    forall|i: int| 0 <= i < k ==> well_formed((#[trigger] commands@[i]).sub),
                decreases commands.len() - k,
            {
                assert(decreases_to!(*sub => sub->Branch_0));
                assert(decreases_to!(commands => commands[k as int]));
                if !is_new_name(commands, k) || !is_well_formed(&commands[k].sub) {
                    proof {
                        if well_formed(*sub) {
                            assert(well_formed(commands@[k as int].sub));
                            assert(forall|i: int|
                                0 <= i < k ==> (#[trigger] commands@[i]).name@ != commands@[k as int]
                                    .name@);
                        }
                    }
                    return false;
                }
                proof {
                    let before = commands@.take(k as int);
                    let after = commands@.take(k + 1);
                    assert forall|i: int, j: int| 0 <= i < j < after.len() implies (
                    #[trigger] after[i]).name@ != (#[trigger] after[j]).name@ by {
                        assert(after[i] == commands@[i]);
                        assert(after[j] == commands@[j]);
                        if j < k {
                            assert(before[i] == commands@[i]);
                            assert(before[j] == commands@[j]);
                        }
                    }
                }
                k = k + 1;
            }
            assert(commands@.take(k as int) =~= commands@);
            true
        },
        Sub::Params(_, _) => true,
        Sub::Terminal(_) => true,
    }
}

} // verus!
