//! Building the command schema from the server's loosely typed command catalogue.
//!
//! The catalogue maps each full command name to a pair: the (group, subcommand)
//! names, and either a list of argument descriptions, a single prompt marker, or
//! nothing.

use vstd::prelude::*;
use crate::keyed::{
    keyed, lemma_keyed_at, lemma_keyed_insert, lemma_keyed_unique, lemma_keyed_update, sorted,
};
use crate::schema::{
    argument_views, command_names, command_table, command_views, group_names, group_views,
    schema_table, wf_schema, Argument, ArgumentView, Command, CommandGroup, CommandView,
    GroupView, opt_text, RawValue, Schema,
};
use crate::text::{lemma_text_lt_total, same_text, text_less, text_lt};

verus! {

/// The first member of a struct value named `key`, if any.
pub open spec fn member(fs: Seq<(String, RawValue)>, key: Seq<char>) -> Option<RawValue>
    decreases fs.len(),
{
    if fs.len() == 0 {
        None
    } else if fs[0].0@ == key {
        Some(fs[0].1)
    } else {
        member(fs.drop_first(), key)
    }
}

/// The element at `i` of an array value; nil where there is none.
pub open spec fn element(v: RawValue, i: int) -> RawValue {
    match v {
        RawValue::Array(a) => if 0 <= i < a@.len() {
            a@[i]
        } else {
            RawValue::Other
        },
        _ => RawValue::Other,
    }
}

/// A flag is set by a boolean `true` or by the exact string `"True"`; anything else,
/// an absent flag included, leaves it unset.
pub open spec fn flag_of(v: Option<RawValue>) -> bool {
    match v {
        Some(RawValue::Bool(b)) => b,
        Some(RawValue::Str(s)) => s@ == "True"@,
        _ => false,
    }
}

/// A text attribute: the string where one is given; absent otherwise.
pub open spec fn text_of(v: Option<RawValue>) -> Option<Seq<char>> {
    match v {
        Some(RawValue::Str(s)) => Some(s@),
        _ => None,
    }
}

/// The argument with every flag unset and every attribute absent.
pub open spec fn blank_argument() -> ArgumentView {
    ArgumentView {
        optional: false,
        repeat: false,
        default: None,
        arg_type: None,
        help_ref: None,
        prompt: None,
    }
}

/// The argument that a description describes, or `None` where it is not a struct.
pub open spec fn argument_of(v: RawValue) -> Option<ArgumentView> {
    match v {
        RawValue::Struct(fs) => {
            Some(
                ArgumentView {
                    optional: flag_of(member(fs@, "optional"@)),
                    repeat: flag_of(member(fs@, "repeat"@)),
                    default: text_of(member(fs@, "default"@)),
                    arg_type: text_of(member(fs@, "type"@)),
                    help_ref: text_of(member(fs@, "help_ref"@)),
                    prompt: text_of(member(fs@, "prompt"@)),
                },
            )
        },
        _ => None,
    }
}

/// The argument list of a command: a list of descriptions; one blank argument for a
/// prompt marker (a string); no arguments for anything else.
pub open spec fn arguments_of(v: RawValue) -> Option<Seq<ArgumentView>> {
    match v {
        RawValue::Array(items) => if forall|i: int|
            0 <= i < items@.len() ==> argument_of(#[trigger] items@[i]) is Some {
            Some(Seq::new(items@.len(), |i: int| argument_of(items@[i])->0))
        } else {
            None
        },
        RawValue::Str(_) => Some(seq![blank_argument()]),
        _ => Some(Seq::empty()),
    }
}

/// The group name and command of one catalogue entry, or `None` where it is malformed.
pub open spec fn entry_of(fullname: Seq<char>, v: RawValue) -> Option<(Seq<char>, CommandView)> {
    match element(v, 0) {
        RawValue::Array(head) => if head@.len() >= 2 {
            match (head@[0], head@[1]) {
                (RawValue::Str(group), RawValue::Str(name)) => match arguments_of(element(v, 1)) {
                    Some(args) => Some(
                        (
                            group@,
                            CommandView {
                                fullname,
                                name: name@,
                                args,
                                format_suggestion: None,
                                help: None,
                            },
                        ),
                    ),
                    None => None,
                },
                _ => None,
            }
        } else {
            None
        },
        _ => None,
    }
}

/// The entries of a catalogue in order, or `None` where it is malformed.
pub open spec fn catalogue_of(raw: RawValue) -> Option<Seq<(Seq<char>, CommandView)>> {
    match raw {
        RawValue::Struct(fs) => if forall|i: int|
            0 <= i < fs@.len() ==> entry_of((#[trigger] fs@[i]).0@, fs@[i].1) is Some {
            Some(Seq::new(fs@.len(), |i: int| entry_of(fs@[i].0@, fs@[i].1)->0))
        } else {
            None
        },
        _ => None,
    }
}

/// What a list of entries defines: each group maps each of its command names to the
/// last entry given for it.
pub open spec fn catalogue_table(es: Seq<(Seq<char>, CommandView)>) -> Map<
    Seq<char>,
    Map<Seq<char>, CommandView>,
>
    decreases es.len(),
{
    if es.len() == 0 {
        Map::empty()
    } else {
        let t = catalogue_table(es.drop_last());
        let (group, cmd) = es.last();
        let inner = if t.contains_key(group) {
            t[group]
        } else {
            Map::empty()
        };
        t.insert(group, inner.insert(cmd.name, cmd))
    }
}

fn find_member(fs: &Vec<(String, RawValue)>, key: &str) -> (r: Option<usize>)
    ensures
        match r {
            Some(i) => i < fs@.len() && member(fs@, key@) == Some(fs@[i as int].1),
            None => member(fs@, key@) is None,
        },
{
    let mut i: usize = 0;
    assert(fs@.skip(0) =~= fs@);
    while i < fs.len()
        invariant
            i <= fs@.len(),
            member(fs@, key@) == member(fs@.skip(i as int), key@),
        decreases fs@.len() - i,
    {
        if same_text(fs[i].0.as_str(), key) {
            return Some(i);
        }
        assert(fs@.skip(i as int).drop_first() =~= fs@.skip(i + 1));
        i = i + 1;
    }
    None
}

fn read_flag(fs: &Vec<(String, RawValue)>, key: &str) -> (r: bool)
    ensures
        r == flag_of(member(fs@, key@)),
{
    match find_member(fs, key) {
        None => false,
        Some(i) => match &fs[i].1 {
            RawValue::Bool(b) => *b,
            RawValue::Str(s) => same_text(s.as_str(), "True"),
            _ => false,
        },
    }
}

fn read_text(fs: &Vec<(String, RawValue)>, key: &str) -> (r: Option<String>)
    ensures
        opt_text(r) == text_of(member(fs@, key@)),
{
    match find_member(fs, key) {
        None => None,
        Some(i) => match &fs[i].1 {
            RawValue::Str(s) => Some(s.clone()),
            _ => None,
        },
    }
}

impl Argument {
    /// The argument with every flag unset and every attribute absent.
    pub fn blank() -> (r: Argument)
        ensures
            r@ == blank_argument(),
    {
        Argument {
            optional: false,
            repeat: false,
            default: None,
            arg_type: None,
            help_ref: None,
            prompt: None,
        }
    }
}

/// Reads one argument description; `None` where it is not a struct.
pub fn parse_argument(raw: &RawValue) -> (r: Option<Argument>)
    ensures
        match r {
            Some(a) => argument_of(*raw) == Some(a@),
            None => argument_of(*raw) is None,
        },
        (raw is Struct) == (r is Some),
{
    match raw {
        RawValue::Struct(fs) => Some(
            Argument {
                optional: read_flag(fs, "optional"),
                repeat: read_flag(fs, "repeat"),
                default: read_text(fs, "default"),
                arg_type: read_text(fs, "type"),
                help_ref: read_text(fs, "help_ref"),
                prompt: read_text(fs, "prompt"),
            },
        ),
        _ => None,
    }
}

/// Reads the argument list of a command; `None` where a description is malformed.
fn parse_arguments(raw: &RawValue) -> (r: Option<Vec<Argument>>)
    ensures
        match r {
            Some(v) => arguments_of(*raw) == Some(argument_views(v@)),
            None => arguments_of(*raw) is None,
        },
{
    match raw {
        RawValue::Array(items) => {
            let mut out: Vec<Argument> = Vec::new();
            let mut i: usize = 0;
            while i < items.len()
                invariant
                    *raw == RawValue::Array(*items),
                    i <= items@.len(),
                    forall|j: int| 0 <= j < i ==> argument_of(#[trigger] items@[j]) is Some,
                    argument_views(out@) =~= Seq::new(
                        i as nat,
                        |j: int| argument_of(items@[j])->0,
                    ),
                decreases items@.len() - i,
            {
                let ghost before = argument_views(out@);
                match parse_argument(&items[i]) {
                    Some(a) => {
                        out.push(a);
                        assert(argument_views(out@) =~= before.push(a@));
                    },
                    None => {
                        assert(!(forall|j: int|
                            0 <= j < items@.len() ==> argument_of(#[trigger] items@[j]) is Some));
                        return None;
                    },
                }
                i = i + 1;
            }
            assert(arguments_of(*raw) == Some(
                Seq::new(items@.len(), |j: int| argument_of(items@[j])->0),
            ));
            Some(out)
        },
        RawValue::Str(_) => {
            let mut out: Vec<Argument> = Vec::new();
            out.push(Argument::blank());
            assert(argument_views(out@) =~= seq![blank_argument()]);
            Some(out)
        },
        _ => {
            let out: Vec<Argument> = Vec::new();
            assert(argument_views(out@) =~= Seq::<ArgumentView>::empty());
            Some(out)
        },
    }
}

/// Reads one catalogue entry into its group name and command; `None` where it is
/// malformed.
fn parse_entry(fullname: &String, v: &RawValue) -> (r: Option<(String, Command)>)
    ensures
        match r {
            Some((group, cmd)) => entry_of(fullname@, *v) == Some((group@, cmd@)),
            None => entry_of(fullname@, *v) is None,
        },
{
    let parts = match v {
        RawValue::Array(parts) => parts,
        _ => {
            return None;
        },
    };
    if parts.len() == 0 {
        return None;
    }
    let (group, name) = match &parts[0] {
        RawValue::Array(head) => {
            if head.len() < 2 {
                return None;
            }
            match (&head[0], &head[1]) {
                (RawValue::Str(group), RawValue::Str(name)) => (group, name),
                _ => {
                    return None;
                },
            }
        },
        _ => {
            return None;
        },
    };
    let args = if parts.len() > 1 {
        parse_arguments(&parts[1])
    } else {
        parse_arguments(&RawValue::Other)
    };
    match args {
        Some(args) => Some(
            (
                group.clone(),
                Command {
                    fullname: fullname.clone(),
                    name: name.clone(),
                    args,
                    format_suggestion: None,
                    help: None,
                },
            ),
        ),
        None => None,
    }
}

/// Puts `cmd` into a name-ordered command list, replacing a command of the same name.
fn place_command(cmds: &mut Vec<Command>, cmd: Command)
    requires
        sorted(command_names(command_views(old(cmds)@))),
    ensures
        sorted(command_names(command_views(final(cmds)@))),
        command_table(command_views(final(cmds)@)) == command_table(
            command_views(old(cmds)@),
        ).insert(cmd.name@, cmd@),
{
    let ghost cs = command_views(cmds@);
    let ghost names = command_names(cs);
    let mut i: usize = 0;
    while i < cmds.len() && text_less(cmds[i].name.as_str(), cmd.name.as_str())
        invariant
            i <= cmds@.len(),
            cs == command_views(cmds@),
            names == command_names(cs),
            forall|j: int| 0 <= j < i ==> text_lt(#[trigger] names[j], cmd.name@),
        decreases cmds@.len() - i,
    {
        i = i + 1;
    }
    if i < cmds.len() && same_text(cmds[i].name.as_str(), cmd.name.as_str()) {
        let ghost c = cmd@;
        cmds.set(i, cmd);
        assert(command_views(cmds@) =~= cs.update(i as int, c));
        assert(command_names(command_views(cmds@)) =~= names);
        proof {
            lemma_keyed_update(names, cs, i as int, c);
        }
    } else {
        let ghost c = cmd@;
        proof {
            if i < cmds.len() {
                lemma_text_lt_total(names[i as int], c.name);
            }
        }
        cmds.insert(i, cmd);
        assert(command_views(cmds@) =~= cs.insert(i as int, c));
        assert(command_names(command_views(cmds@)) =~= names.insert(i as int, c.name));
        proof {
            lemma_keyed_insert(names, cs, i as int, c.name, c);
        }
    }
}

/// The table of a schema after `cmd` is put into the group named `group`.
pub open spec fn table_with(
    t: Map<Seq<char>, Map<Seq<char>, CommandView>>,
    group: Seq<char>,
    cmd: CommandView,
) -> Map<Seq<char>, Map<Seq<char>, CommandView>> {
    let inner = if t.contains_key(group) {
        t[group]
    } else {
        Map::empty()
    };
    t.insert(group, inner.insert(cmd.name, cmd))
}

/// The command tables of a list of groups, in order.
pub open spec fn group_tables(gs: Seq<GroupView>) -> Seq<Map<Seq<char>, CommandView>> {
    gs.map_values(|g: GroupView| command_table(g.commands))
}

/// Puts `cmd` into the group named `group`, creating the group where there is none.
fn place(groups: &mut Vec<CommandGroup>, group: String, cmd: Command)
    requires
        wf_schema(group_views(old(groups)@)),
    ensures
        wf_schema(group_views(final(groups)@)),
        schema_table(group_views(final(groups)@)) == table_with(
            schema_table(group_views(old(groups)@)),
            group@,
            cmd@,
        ),
{
    let ghost gs = group_views(groups@);
    let ghost names = group_names(gs);
    let ghost tables = group_tables(gs);
    let ghost c = cmd@;
    assert(schema_table(gs) == keyed(names, tables));
    let mut i: usize = 0;
    while i < groups.len() && text_less(groups[i].name.as_str(), group.as_str())
        invariant
            i <= groups@.len(),
            gs == group_views(groups@),
            gs == group_views(old(groups)@),
            wf_schema(gs),
            names == group_names(gs),
            forall|j: int| 0 <= j < i ==> text_lt(#[trigger] names[j], group@),
        decreases groups@.len() - i,
    {
        i = i + 1;
    }
    if i < groups.len() && same_text(groups[i].name.as_str(), group.as_str()) {
        let mut g = groups.remove(i);
        let ghost before = g@;
        assert(before == gs[i as int]);
        assert(sorted(command_names(gs[i as int].commands)));
        place_command(&mut g.commands, cmd);
        groups.insert(i, g);
        proof {
            let ngs = group_views(groups@);
            assert(ngs =~= gs.update(i as int, g@));
            assert(group_names(ngs) =~= names);
            assert(group_tables(ngs) =~= tables.update(i as int, command_table(g@.commands)));
            lemma_keyed_update(names, tables, i as int, command_table(g@.commands));
            lemma_keyed_at(names, tables, i as int);
            assert forall|j: int| 0 <= j < ngs.len() implies sorted(
                command_names(#[trigger] ngs[j].commands),
            ) by {
                if j != i {
                    assert(ngs[j] == gs[j]);
                }
            }
        }
    } else {
        let ghost gname = group@;
        let mut cs: Vec<Command> = Vec::new();
        cs.push(cmd);
        let fresh = CommandGroup { name: group, commands: cs };
        groups.insert(i, fresh);
        proof {
            if i < gs.len() {
                lemma_text_lt_total(names[i as int], gname);
            }
            let ngs = group_views(groups@);
            let one = command_views(fresh.commands@);
            assert(one =~= seq![c]);
            assert(command_names(one) =~= seq![c.name]);
            assert(ngs =~= gs.insert(i as int, fresh@));
            assert(group_names(ngs) =~= names.insert(i as int, gname));
            assert(group_tables(ngs) =~= tables.insert(i as int, command_table(one)));
            lemma_keyed_insert(names, tables, i as int, gname, command_table(one));
            assert(keyed(command_names(one), one) =~= Map::<Seq<char>, CommandView>::empty().insert(
                c.name,
                c,
            )) by {
                assert(command_names(one).contains(c.name) ==> command_names(one).index_of(c.name)
                    == 0);
                assert(command_names(one)[0] == c.name);
            }
            assert forall|j: int| 0 <= j < ngs.len() implies sorted(
                command_names(#[trigger] ngs[j].commands),
            ) by {
                if j < i {
                    assert(ngs[j] == gs[j]);
                } else if j > i {
                    assert(ngs[j] == gs[j - 1]);
                }
            }
        }
    }
}

/// Builds the command schema from the server's catalogue; `None` where the catalogue
/// is malformed.
pub fn build_schema(raw: &RawValue) -> (r: Option<Schema>)
    ensures
        r is Some <==> catalogue_of(*raw) is Some,
        r matches Some(s) ==> s.wf() && schema_table(s@) == catalogue_table(
            catalogue_of(*raw)->0,
        ),
{
    let fs = match raw {
        RawValue::Struct(fs) => fs,
        _ => {
            return None;
        },
    };
    let ghost es = Seq::new(fs@.len(), |j: int| entry_of(fs@[j].0@, fs@[j].1)->0);
    let mut groups: Vec<CommandGroup> = Vec::new();
    assert(group_views(groups@) =~= Seq::<GroupView>::empty());
    assert(schema_table(group_views(groups@)) =~= catalogue_table(es.take(0)));
    let mut i: usize = 0;
    while i < fs.len()
        invariant
            *raw == RawValue::Struct(*fs),
            i <= fs@.len(),
            es == Seq::new(fs@.len(), |j: int| entry_of(fs@[j].0@, fs@[j].1)->0),
            forall|j: int| 0 <= j < i ==> entry_of((#[trigger] fs@[j]).0@, fs@[j].1) is Some,
            wf_schema(group_views(groups@)),
            schema_table(group_views(groups@)) == catalogue_table(es.take(i as int)),
        decreases fs@.len() - i,
    {
        match parse_entry(&fs[i].0, &fs[i].1) {
            Some((group, cmd)) => {
                proof {
                    assert(es.take(i + 1).drop_last() =~= es.take(i as int));
                    assert(es.take(i + 1).last() == (group@, cmd@));
                }
                place(&mut groups, group, cmd);
            },
            None => {
                return None;
            },
        }
        i = i + 1;
    }
    assert(es.take(fs@.len() as int) =~= es);
    Some(Schema { groups })
}

/// Building is deterministic: two well-formed schemas that both describe the same
/// catalogue are equal, so building twice from one catalogue (with `build_schema`
/// or `Bofh::get_commands`) gives equal schemas.
pub proof fn lemma_build_deterministic(raw: RawValue, a: Seq<GroupView>, b: Seq<GroupView>)
    requires
        catalogue_of(raw) is Some,
        wf_schema(a),
        wf_schema(b),
        schema_table(a) == catalogue_table(catalogue_of(raw)->0),
        schema_table(b) == catalogue_table(catalogue_of(raw)->0),
    ensures
        a == b,
{
    lemma_keyed_unique(group_names(a), group_tables(a), group_names(b), group_tables(b));
    assert forall|i: int| 0 <= i < a.len() implies #[trigger] a[i] == b[i] by {
        assert(group_names(a)[i] == group_names(b)[i]);
        assert(group_tables(a)[i] == group_tables(b)[i]);
        lemma_keyed_unique(
            command_names(a[i].commands),
            a[i].commands,
            command_names(b[i].commands),
            b[i].commands,
        );
    }
    assert(a =~= b);
}

/// A flag that a description leaves out is unset.
pub proof fn lemma_absent_flag_unset(v: RawValue, key: Seq<char>)
    requires
        v matches RawValue::Struct(fs) && member(fs@, key) is None,
    ensures
        v matches RawValue::Struct(fs) && !flag_of(member(fs@, key)),
        key == "optional"@ && argument_of(v) is Some ==> !argument_of(v)->0.optional,
        key == "repeat"@ && argument_of(v) is Some ==> !argument_of(v)->0.repeat,
{
}

} // verus!
