//! The command schema: arguments, commands and command groups, kept in name order.

use vstd::prelude::*;
use crate::keyed::{keyed, sorted};

verus! {

/// One formal parameter of a command.
#[derive(Debug, Clone)]
pub struct Argument {
    /// Whether this argument may be left out.
    pub optional: bool,
    /// Whether this argument may be given more than once.
    pub repeat: bool,
    /// The default value for this argument.
    pub default: Option<String>,
    /// The argument type, shown in hints.
    pub arg_type: Option<String>,
    /// The help reference to use for this argument, if the client asks for help.
    pub help_ref: Option<String>,
    /// The prompt to show if the argument is not given.
    pub prompt: Option<String>,
}

/// A command that can be invoked on the server.
#[derive(Debug, Clone)]
pub struct Command {
    /// The full remote command name, which is what gets invoked.
    pub fullname: String,
    /// The name of this subcommand within its group.
    pub name: String,
    /// The declared arguments, in order.
    pub args: Vec<Argument>,
    /// Output format suggestion for clients.
    pub format_suggestion: Option<String>,
    /// Help text for the command, supplied by the server.
    pub help: Option<String>,
}

/// A group of commands sharing the first word the user types.
#[derive(Debug, Clone)]
pub struct CommandGroup {
    /// The common first word of the grouped commands.
    pub name: String,
    /// The group's commands, in strictly increasing order of name.
    pub commands: Vec<Command>,
}

/// What an optional string holds.
pub open spec fn opt_text(o: Option<String>) -> Option<Seq<char>> {
    match o {
        Some(s) => Some(s@),
        None => None,
    }
}

/// The content of an [`Argument`].
pub struct ArgumentView {
    pub optional: bool,
    pub repeat: bool,
    pub default: Option<Seq<char>>,
    pub arg_type: Option<Seq<char>>,
    pub help_ref: Option<Seq<char>>,
    pub prompt: Option<Seq<char>>,
}

/// The content of a [`Command`].
pub struct CommandView {
    pub fullname: Seq<char>,
    pub name: Seq<char>,
    pub args: Seq<ArgumentView>,
    pub format_suggestion: Option<Seq<char>>,
    pub help: Option<Seq<char>>,
}

/// The content of a [`CommandGroup`].
pub struct GroupView {
    pub name: Seq<char>,
    pub commands: Seq<CommandView>,
}

impl View for Argument {
    type V = ArgumentView;

    open spec fn view(&self) -> ArgumentView {
        ArgumentView {
            optional: self.optional,
            repeat: self.repeat,
            default: opt_text(self.default),
            arg_type: opt_text(self.arg_type),
            help_ref: opt_text(self.help_ref),
            prompt: opt_text(self.prompt),
        }
    }
}

/// The contents of a list of arguments.
pub open spec fn argument_views(v: Seq<Argument>) -> Seq<ArgumentView> {
    v.map_values(|a: Argument| a@)
}

impl View for Command {
    type V = CommandView;

    open spec fn view(&self) -> CommandView {
        CommandView {
            fullname: self.fullname@,
            name: self.name@,
            args: argument_views(self.args@),
            format_suggestion: opt_text(self.format_suggestion),
            help: opt_text(self.help),
        }
    }
}

/// The contents of a list of commands.
pub open spec fn command_views(v: Seq<Command>) -> Seq<CommandView> {
    v.map_values(|c: Command| c@)
}

impl View for CommandGroup {
    type V = GroupView;

    open spec fn view(&self) -> GroupView {
        GroupView { name: self.name@, commands: command_views(self.commands@) }
    }
}

/// The contents of a list of command groups.
pub open spec fn group_views(v: Seq<CommandGroup>) -> Seq<GroupView> {
    v.map_values(|g: CommandGroup| g@)
}

/// A loosely typed value as the server sends it.
#[derive(Debug)]
pub enum RawValue {
    Bool(bool),
    Str(String),
    Array(Vec<RawValue>),
    /// Named members, in the order the server's map yields them.
    Struct(Vec<(String, RawValue)>),
    /// Any other kind of value (numbers, dates, binary data, nil).
    Other,
}

/// The names of a list of commands, in order.
pub open spec fn command_names(cs: Seq<CommandView>) -> Seq<Seq<char>> {
    cs.map_values(|c: CommandView| c.name)
}

/// The names of a list of groups, in order.
pub open spec fn group_names(gs: Seq<GroupView>) -> Seq<Seq<char>> {
    gs.map_values(|g: GroupView| g.name)
}

/// A group's commands as a map from name to command.
pub open spec fn command_table(cs: Seq<CommandView>) -> Map<Seq<char>, CommandView> {
    keyed(command_names(cs), cs)
}

/// A schema as a map from group name to that group's command map.
pub open spec fn schema_table(gs: Seq<GroupView>) -> Map<Seq<char>, Map<Seq<char>, CommandView>> {
    keyed(group_names(gs), gs.map_values(|g: GroupView| command_table(g.commands)))
}

/// Groups in strictly increasing name order, each with its commands in strictly
/// increasing name order.
pub open spec fn wf_schema(gs: Seq<GroupView>) -> bool {
    &&& sorted(group_names(gs))
    &&& forall|i: int| 0 <= i < gs.len() ==> sorted(command_names(#[trigger] gs[i].commands))
}

/// The command schema: every group the server offers, in alphabetic order.
pub struct Schema {
    /// The groups, in strictly increasing name order.
    pub groups: Vec<CommandGroup>,
}

impl View for Schema {
    type V = Seq<GroupView>;

    open spec fn view(&self) -> Seq<GroupView> {
        group_views(self.groups@)
    }
}

impl Schema {
    /// Groups and commands are kept in strictly increasing name order.
    pub open spec fn wf(&self) -> bool {
        wf_schema(self@)
    }

    /// A schema with no groups.
    pub fn empty() -> (r: Schema)
        ensures
            r.wf(),
            r@ == Seq::<GroupView>::empty(),
    {
        let r = Schema { groups: Vec::new() };
        assert(r@ =~= Seq::<GroupView>::empty());
        r
    }
}

} // verus!
