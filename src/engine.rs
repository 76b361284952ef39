//! Completion and hint engines: pure functions of the schema, the typed line and the
//! cursor.

use vstd::prelude::*;
use crate::error::BofhError;
use crate::keyed::sorted;
use crate::schema::{
    argument_views, command_names, command_views, group_names, Argument, ArgumentView, Command,
    CommandView, GroupView, Schema, opt_text, wf_schema,
};
use crate::text::{
    ends_in_space, ends_with_space, has_prefix, lemma_text_lt_irreflexive,
    lemma_words_extend, lemma_words_space, no_space, same_text,
    split_words, suffix_after, text_lt, texts, white_space, words,
};

verus! {

/// The names in `names` that start with `p`, in order.
pub open spec fn starting_with(names: Seq<Seq<char>>, p: Seq<char>) -> Seq<Seq<char>> {
    names.filter(|n: Seq<char>| p.is_prefix_of(n))
}

/// The names in `names` other than `x`, in order.
pub open spec fn other_than(names: Seq<Seq<char>>, x: Seq<char>) -> Seq<Seq<char>> {
    names.filter(|n: Seq<char>| n != x)
}

/// The group called `name`, if there is one.
pub open spec fn group_named(gs: Seq<GroupView>, name: Seq<char>) -> Option<GroupView> {
    if exists|i: int| 0 <= i < gs.len() && gs[i].name == name {
        Some(gs[choose|i: int| 0 <= i < gs.len() && gs[i].name == name])
    } else {
        None
    }
}

/// The command called `name`, if there is one.
pub open spec fn command_named(cs: Seq<CommandView>, name: Seq<char>) -> Option<CommandView> {
    if exists|i: int| 0 <= i < cs.len() && cs[i].name == name {
        Some(cs[choose|i: int| 0 <= i < cs.len() && cs[i].name == name])
    } else {
        None
    }
}

/// The command names of the group called `group` that start with `p`; none where
/// there is no such group.
pub open spec fn subcommands_starting_with(
    gs: Seq<GroupView>,
    group: Seq<char>,
    p: Seq<char>,
) -> Seq<Seq<char>> {
    match group_named(gs, group) {
        Some(g) => starting_with(command_names(g.commands), p),
        None => Seq::empty(),
    }
}

/// The group that `w` picks out: the one group whose name starts with `w`, where there
/// is exactly one.
pub open spec fn resolved_group(gs: Seq<GroupView>, w: Seq<char>) -> Option<GroupView> {
    let c = starting_with(group_names(gs), w);
    if c.len() == 1 {
        group_named(gs, c[0])
    } else {
        None
    }
}

/// The command that the words `w0 w1` pick out, each by exactly one name starting
/// with it.
pub open spec fn resolved_command(gs: Seq<GroupView>, w0: Seq<char>, w1: Seq<char>) -> Option<
    CommandView,
> {
    match resolved_group(gs, w0) {
        Some(g) => {
            let c = starting_with(command_names(g.commands), w1);
            if c.len() == 1 {
                command_named(g.commands, c[0])
            } else {
                None
            }
        },
        None => None,
    }
}

/// Every name starting with `p` starts with `p` and is one of the names.
pub proof fn lemma_starting_with_facts(names: Seq<Seq<char>>, p: Seq<char>)
    ensures
        forall|i: int|
            0 <= i < starting_with(names, p).len() ==> {
                &&& p.is_prefix_of(#[trigger] starting_with(names, p)[i])
                &&& names.contains(starting_with(names, p)[i])
            },
    decreases names.len(),
{
    reveal(Seq::filter);
    if names.len() > 0 {
        let rest = names.drop_last();
        lemma_starting_with_facts(rest, p);
        assert(starting_with(names, p) == if p.is_prefix_of(names.last()) {
            starting_with(rest, p).push(names.last())
        } else {
            starting_with(rest, p)
        });
        assert forall|i: int| 0 <= i < starting_with(names, p).len() implies {
            &&& p.is_prefix_of(#[trigger] starting_with(names, p)[i])
            &&& names.contains(starting_with(names, p)[i])
        } by {
            let x = starting_with(names, p)[i];
            if i < starting_with(rest, p).len() {
                assert(x == starting_with(rest, p)[i]);
                let j = choose|j: int| 0 <= j < rest.len() && rest[j] == x;
                assert(names[j] == x);
            } else {
                assert(names[names.len() - 1] == x);
            }
        }
    }
}

/// Every name other than `x` is one of the names.
pub proof fn lemma_other_than_facts(names: Seq<Seq<char>>, x: Seq<char>)
    ensures
        forall|i: int|
            0 <= i < other_than(names, x).len() ==> names.contains(
                #[trigger] other_than(names, x)[i],
            ),
    decreases names.len(),
{
    reveal(Seq::filter);
    if names.len() > 0 {
        let rest = names.drop_last();
        lemma_other_than_facts(rest, x);
        assert forall|i: int| 0 <= i < other_than(names, x).len() implies names.contains(
            #[trigger] other_than(names, x)[i],
        ) by {
            let y = other_than(names, x)[i];
            if i < other_than(rest, x).len() {
                assert(y == other_than(rest, x)[i]);
                let j = choose|j: int| 0 <= j < rest.len() && rest[j] == y;
                assert(names[j] == y);
            } else {
                assert(names[names.len() - 1] == y);
            }
        }
    }
}

/// The names starting with `p` among one more name.
pub proof fn lemma_starting_with_step(names: Seq<Seq<char>>, p: Seq<char>, i: int)
    requires
        0 <= i < names.len(),
    ensures
        starting_with(names.take(i + 1), p) == if p.is_prefix_of(names[i]) {
            starting_with(names.take(i), p).push(names[i])
        } else {
            starting_with(names.take(i), p)
        },
{
    reveal(Seq::filter);
    assert(names.take(i + 1).drop_last() =~= names.take(i));
}

/// The names other than `x` among one more name.
pub proof fn lemma_other_than_step(names: Seq<Seq<char>>, x: Seq<char>, i: int)
    requires
        0 <= i < names.len(),
    ensures
        other_than(names.take(i + 1), x) == if names[i] != x {
            other_than(names.take(i), x).push(names[i])
        } else {
            other_than(names.take(i), x)
        },
{
    reveal(Seq::filter);
    assert(names.take(i + 1).drop_last() =~= names.take(i));
}

/// Filtering nothing gives nothing.
pub proof fn lemma_filter_empty(names: Seq<Seq<char>>, p: Seq<char>)
    ensures
        starting_with(names.take(0), p) == Seq::<Seq<char>>::empty(),
        other_than(names.take(0), p) == Seq::<Seq<char>>::empty(),
{
    reveal(Seq::filter);
}

/// In a well-formed schema a group is found by its name.
pub proof fn lemma_group_named(gs: Seq<GroupView>, i: int)
    requires
        wf_schema(gs),
        0 <= i < gs.len(),
    ensures
        group_named(gs, gs[i].name) == Some(gs[i]),
{
    let j = choose|j: int| 0 <= j < gs.len() && gs[j].name == gs[i].name;
    assert(group_names(gs)[i] == gs[i].name);
    if j != i {
        assert(group_names(gs)[j] == gs[i].name);
        lemma_text_lt_irreflexive(gs[i].name);
    }
}

/// In name-ordered commands a command is found by its name.
pub proof fn lemma_command_named(cs: Seq<CommandView>, i: int)
    requires
        sorted(command_names(cs)),
        0 <= i < cs.len(),
    ensures
        command_named(cs, cs[i].name) == Some(cs[i]),
{
    let j = choose|j: int| 0 <= j < cs.len() && cs[j].name == cs[i].name;
    assert(command_names(cs)[i] == cs[i].name);
    if j != i {
        assert(command_names(cs)[j] == cs[i].name);
        lemma_text_lt_irreflexive(cs[i].name);
    }
}

/// The completion candidates for a line: every group name on an empty line; the
/// groups starting with the one word being typed; after a group word and whitespace,
/// every command of the group it picks out; the commands of that group starting with
/// a second word being typed; nothing otherwise.
pub open spec fn completion_candidates(gs: Seq<GroupView>, s: Seq<char>) -> Seq<Seq<char>> {
    let w = words(s);
    if w.len() == 0 {
        group_names(gs)
    } else if w.len() == 1 && !ends_in_space(s) {
        starting_with(group_names(gs), w[0])
    } else if w.len() == 1 {
        match resolved_group(gs, w[0]) {
            Some(g) => command_names(g.commands),
            None => Seq::empty(),
        }
    } else if w.len() == 2 && !ends_in_space(s) {
        match resolved_group(gs, w[0]) {
            Some(g) => starting_with(command_names(g.commands), w[1]),
            None => Seq::empty(),
        }
    } else {
        Seq::empty()
    }
}

/// How much of the candidates is typed already: the word under the cursor, if any.
pub open spec fn typed_len(s: Seq<char>) -> nat {
    let w = words(s);
    if w.len() == 0 || ends_in_space(s) {
        0
    } else {
        w.last().len()
    }
}

/// The text a candidate inserts: what is not typed yet, and a separator where the
/// candidate is the only one.
pub open spec fn replacement_of(c: Seq<char>, typed: nat, only: bool) -> Seq<char> {
    c.skip(typed as int) + if only {
        seq![' ']
    } else {
        Seq::empty()
    }
}

/// How many arguments count as given: the words after the subcommand, less the one
/// still being typed where the line does not end in whitespace.
pub open spec fn args_supplied(s: Seq<char>) -> int {
    if ends_in_space(s) {
        words(s).len() - 2
    } else {
        words(s).len() - 3
    }
}

/// The command whose arguments are hinted: the first two words pick out one command,
/// the subcommand word is complete (its exact name, or followed by whitespace), and
/// fewer arguments are given than it declares.
pub open spec fn arg_hint_command(gs: Seq<GroupView>, s: Seq<char>) -> Option<CommandView> {
    let w = words(s);
    if w.len() < 2 {
        None
    } else {
        match resolved_command(gs, w[0], w[1]) {
            Some(cmd) => if (w[1] == cmd.name || ends_in_space(s)) && 0 <= args_supplied(s)
                < cmd.args.len() {
                Some(cmd)
            } else {
                None
            },
            None => None,
        }
    }
}

/// How many arguments the argument hint lists, where it applies.
pub open spec fn arg_hint_count(gs: Seq<GroupView>, s: Seq<char>) -> Option<int> {
    match arg_hint_command(gs, s) {
        Some(cmd) => Some(cmd.args.len() - args_supplied(s)),
        None => None,
    }
}

/// The type tags of the arguments that have one, in order.
pub open spec fn type_tags(args: Seq<ArgumentView>) -> Seq<Seq<char>>
    decreases args.len(),
{
    if args.len() == 0 {
        Seq::empty()
    } else {
        let rest = type_tags(args.drop_last());
        match args.last().arg_type {
            Some(t) => rest.push(t),
            None => rest,
        }
    }
}

/// The texts joined by single spaces.
pub open spec fn space_joined(ws: Seq<Seq<char>>) -> Seq<char>
    decreases ws.len(),
{
    if ws.len() == 0 {
        Seq::empty()
    } else if ws.len() == 1 {
        ws[0]
    } else {
        space_joined(ws.drop_last()) + seq![' '] + ws.last()
    }
}

/// The words a command hint may complete to: the groups starting with the one word,
/// or the commands of the group picked out starting with the second word, other than
/// the word itself.
pub open spec fn hint_candidates(gs: Seq<GroupView>, s: Seq<char>) -> Seq<Seq<char>> {
    let w = words(s);
    if w.len() == 1 {
        other_than(starting_with(group_names(gs), w[0]), w[0])
    } else if w.len() == 2 {
        match resolved_group(gs, w[0]) {
            Some(g) => other_than(starting_with(command_names(g.commands), w[1]), w[1]),
            None => Seq::empty(),
        }
    } else {
        Seq::empty()
    }
}

/// The inline hint for a line with the cursor at its end: the remaining argument types
/// where the argument hint applies; else nothing after whitespace; else the rest of
/// the one word the typed word can complete to.
pub open spec fn hint_text(gs: Seq<GroupView>, s: Seq<char>) -> Option<Seq<char>> {
    let w = words(s);
    if w.len() == 0 {
        None
    } else {
        match arg_hint_command(gs, s) {
            Some(cmd) => Some(
                (if ends_in_space(s) {
                    Seq::empty()
                } else {
                    seq![' ']
                }) + space_joined(type_tags(cmd.args.skip(args_supplied(s)))),
            ),
            None => if ends_in_space(s) {
                None
            } else {
                let c = hint_candidates(gs, s);
                if c.len() == 1 {
                    Some(c[0].skip(w.last().len() as int))
                } else {
                    None
                }
            },
        }
    }
}

/// Type tags of one more argument.
pub proof fn lemma_type_tags_push(args: Seq<ArgumentView>, a: ArgumentView)
    ensures
        type_tags(args.push(a)) == match a.arg_type {
            Some(t) => type_tags(args).push(t),
            None => type_tags(args),
        },
{
    assert(args.push(a).drop_last() =~= args);
}

/// Joining one more text.
pub proof fn lemma_space_joined_push(ws: Seq<Seq<char>>, t: Seq<char>)
    ensures
        space_joined(ws.push(t)) == if ws.len() == 0 {
            t
        } else {
            space_joined(ws) + seq![' '] + t
        },
{
    assert(ws.push(t).drop_last() =~= ws);
}

/// Completing an empty line offers every group name; completing one word offers
/// exactly the group names that start with it, completing the word typed so far.
pub proof fn lemma_complete_groups(gs: Seq<GroupView>, p: Seq<char>)
    requires
        p.len() > 0,
        no_space(p),
    ensures
        completion_candidates(gs, Seq::empty()) == group_names(gs),
        completion_candidates(gs, p) == starting_with(group_names(gs), p),
        typed_len(p) == p.len(),
{
    lemma_words_extend(Seq::empty(), p);
    assert(Seq::<char>::empty() + p =~= p);
    assert(words(p) =~= seq![p]);
    assert(!ends_in_space(p));
}

/// Names in strictly increasing order keep that order when filtered.
pub proof fn lemma_starting_with_sorted(names: Seq<Seq<char>>, p: Seq<char>)
    requires
        sorted(names),
    ensures
        sorted(starting_with(names, p)),
    decreases names.len(),
{
    reveal(Seq::filter);
    if names.len() > 0 {
        let rest = names.drop_last();
        assert(sorted(rest));
        lemma_starting_with_sorted(rest, p);
        lemma_starting_with_facts(rest, p);
        let sw = starting_with(names, p);
        let sr = starting_with(rest, p);
        if p.is_prefix_of(names.last()) {
            assert(sw == sr.push(names.last()));
            assert forall|i: int, j: int| 0 <= i < j < sw.len() implies text_lt(
                #[trigger] sw[i],
                #[trigger] sw[j],
            ) by {
                if j == sw.len() - 1 {
                    assert(sw[i] == sr[i]);
                    let k = choose|k: int| 0 <= k < rest.len() && rest[k] == sr[i];
                    assert(names[k] == sr[i]);
                    assert(text_lt(names[k], names[names.len() - 1]));
                } else {
                    assert(sw[i] == sr[i] && sw[j] == sr[j]);
                }
            }
        } else {
            assert(sw == sr);
        }
    }
}

/// Without repetition, dropping one name removes at most one entry.
pub proof fn lemma_other_than_len(names: Seq<Seq<char>>, x: Seq<char>)
    requires
        sorted(names),
    ensures
        other_than(names, x).len() == names.len() - if names.contains(x) {
            1int
        } else {
            0int
        },
    decreases names.len(),
{
    reveal(Seq::filter);
    if names.len() > 0 {
        let rest = names.drop_last();
        assert(sorted(rest));
        lemma_other_than_len(rest, x);
        if names.last() == x {
            if rest.contains(x) {
                let k = choose|k: int| 0 <= k < rest.len() && rest[k] == x;
                assert(text_lt(names[k], names[names.len() - 1]));
                lemma_text_lt_irreflexive(x);
            }
            assert(names.contains(x)) by {
                assert(names[names.len() - 1] == x);
            }
        } else {
            if rest.contains(x) {
                let k = choose|k: int| 0 <= k < rest.len() && rest[k] == x;
                assert(names[k] == x);
            }
            if names.contains(x) {
                let k = choose|k: int| 0 <= k < names.len() && names[k] == x;
                assert(k < names.len() - 1);
                assert(rest[k] == x);
            }
        }
    }
}

/// Where no argument hint applies, a hint is given only where completion offers a
/// single word, or two words of which one is the word already typed in full: with no
/// candidate, or with several, there is no hint.
pub proof fn lemma_hint_needs_single_candidate(gs: Seq<GroupView>, s: Seq<char>)
    requires
        wf_schema(gs),
        arg_hint_command(gs, s) is None,
        completion_candidates(gs, s).len() != 1,
        !(completion_candidates(gs, s).len() == 2 && words(s).len() > 0
            && completion_candidates(gs, s).contains(words(s).last())),
    ensures
        hint_text(gs, s) is None,
{
    let w = words(s);
    if w.len() > 0 && !ends_in_space(s) {
        if w.len() == 1 {
            let sw = starting_with(group_names(gs), w[0]);
            lemma_starting_with_sorted(group_names(gs), w[0]);
            lemma_other_than_len(sw, w[0]);
        } else if w.len() == 2 {
            if let Some(g) = resolved_group(gs, w[0]) {
                let i = choose|i: int| 0 <= i < gs.len() && gs[i].name == starting_with(
                    group_names(gs),
                    w[0],
                )[0];
                assert(g == gs[i]);
                assert(sorted(command_names(gs[i].commands)));
                let sw = starting_with(command_names(g.commands), w[1]);
                lemma_starting_with_sorted(command_names(g.commands), w[1]);
                lemma_other_than_len(sw, w[1]);
            }
        }
    }
}

/// After whitespace, only an argument hint is ever given.
pub proof fn lemma_no_hint_after_space(gs: Seq<GroupView>, s: Seq<char>)
    requires
        ends_in_space(s),
        arg_hint_command(gs, s) is None,
    ensures
        hint_text(gs, s) is None,
{
}

/// Typing one more argument word and whitespace after a line that ends in whitespace
/// keeps the resolved command and lowers the number of hinted arguments by one; when
/// it reaches zero, no argument hint, and no hint at all, is given.
pub proof fn lemma_arg_hint_monotonic(gs: Seq<GroupView>, s: Seq<char>, t: Seq<char>, sp: char)
    requires
        ends_in_space(s),
        arg_hint_count(gs, s) is Some,
        t.len() > 0,
        no_space(t),
        white_space(sp),
    ensures
        arg_hint_count(gs, s)->0 > 1 ==> arg_hint_command(gs, (s + t).push(sp)) == arg_hint_command(
            gs,
            s,
        ) && arg_hint_count(gs, (s + t).push(sp)) == Some(arg_hint_count(gs, s)->0 - 1),
        arg_hint_count(gs, s)->0 == 1 ==> arg_hint_count(gs, (s + t).push(sp)) is None
            && hint_text(gs, (s + t).push(sp)) is None,
{
    let u = (s + t).push(sp);
    lemma_words_extend(s, t);
    lemma_words_space(s + t, sp);
    let w = words(s);
    assert(words(u) == w.push(t));
    assert(words(u)[0] == w[0] && words(u)[1] == w[1]);
    assert(args_supplied(u) == args_supplied(s) + 1);
}

/// The same while the caret is still inside the newly typed argument word: appending
/// whitespace and one more word to a line that ends in a word also lowers the number
/// of hinted arguments by one, down to no argument hint.
pub proof fn lemma_arg_hint_monotonic_typing(
    gs: Seq<GroupView>,
    s: Seq<char>,
    sp: char,
    t: Seq<char>,
)
    requires
        !ends_in_space(s),
        arg_hint_count(gs, s) is Some,
        white_space(sp),
        t.len() > 0,
        no_space(t),
    ensures
        arg_hint_count(gs, s)->0 > 1 ==> arg_hint_command(gs, s.push(sp) + t) == arg_hint_command(
            gs,
            s,
        ) && arg_hint_count(gs, s.push(sp) + t) == Some(arg_hint_count(gs, s)->0 - 1),
        arg_hint_count(gs, s)->0 == 1 ==> arg_hint_count(gs, s.push(sp) + t) is None,
{
    let u = s.push(sp) + t;
    lemma_words_space(s, sp);
    lemma_words_extend(s.push(sp), t);
    let w = words(s);
    assert(words(u) == w.push(t));
    assert(words(u)[0] == w[0] && words(u)[1] == w[1]);
    assert(u.last() == t.last());
    assert(!ends_in_space(u));
    assert(args_supplied(u) == args_supplied(s) + 1);
}

/// Once the argument hint has run out after whitespace, typing more argument words
/// brings no argument hint back.
pub proof fn lemma_arg_hint_stays_off(gs: Seq<GroupView>, s: Seq<char>, t: Seq<char>, sp: char)
    requires
        ends_in_space(s),
        words(s).len() >= 2,
        arg_hint_count(gs, s) is None,
        t.len() > 0,
        no_space(t),
        white_space(sp),
    ensures
        arg_hint_count(gs, (s + t).push(sp)) is None,
        hint_text(gs, (s + t).push(sp)) is None,
{
    let u = (s + t).push(sp);
    lemma_words_extend(s, t);
    lemma_words_space(s + t, sp);
    let w = words(s);
    assert(words(u) == w.push(t));
    assert(words(u)[0] == w[0] && words(u)[1] == w[1]);
    assert(args_supplied(u) == args_supplied(s) + 1);
}

/// A completion candidate: the full word to show, and the text to insert at the cursor.
#[derive(Debug)]
pub struct Candidate {
    /// The full candidate word.
    pub display: String,
    /// The text inserted at the cursor.
    pub replacement: String,
}

/// A resolved command line: the full command name and the arguments to pass.
#[derive(Debug)]
pub struct Invocation {
    /// The full remote command name.
    pub fullname: String,
    /// The arguments, in the order typed.
    pub args: Vec<String>,
}

/// How many names a typed word matches: none, exactly one, or several.
#[derive(Debug, Clone, Copy, PartialEq, Eq)]
pub enum Match {
    Unknown,
    Unique,
    Ambiguous,
}

/// The match class of a candidate count.
pub open spec fn match_of(n: int) -> Match {
    if n == 0 {
        Match::Unknown
    } else if n == 1 {
        Match::Unique
    } else {
        Match::Ambiguous
    }
}

/// A typed word with its match class, for highlighting.
#[derive(Debug)]
pub struct Marked {
    /// The word as typed.
    pub word: String,
    /// How many names it matches.
    pub status: Match,
}

/// The completion and hint engine over a schema.
pub struct BofhHelper<'a> {
    /// The schema the engine reads; it is never changed.
    pub commands: &'a Schema,
}

/// The names of `cs` that start with `prefix`, in order.
fn names_starting_with(cs: &Vec<Command>, prefix: &str) -> (r: Vec<String>)
    ensures
        texts(r@) == starting_with(command_names(command_views(cs@)), prefix@),
{
    let ghost names = command_names(command_views(cs@));
    let mut out: Vec<String> = Vec::new();
    let mut i: usize = 0;
    proof {
        lemma_filter_empty(names, prefix@);
    }
    while i < cs.len()
        invariant
            i <= cs@.len(),
            names == command_names(command_views(cs@)),
            texts(out@) == starting_with(names.take(i as int), prefix@),
        decreases cs@.len() - i,
    {
        proof {
            lemma_starting_with_step(names, prefix@, i as int);
        }
        let ghost before = texts(out@);
        assert(names[i as int] == cs@[i as int].name@);
        if has_prefix(cs[i].name.as_str(), prefix) {
            out.push(cs[i].name.clone());
            assert(texts(out@) =~= before.push(names[i as int]));
        }
        i = i + 1;
    }
    assert(names.take(cs@.len() as int) =~= names);
    out
}

/// All names of `cs`, in order.
fn all_names(cs: &Vec<Command>) -> (r: Vec<String>)
    ensures
        texts(r@) == command_names(command_views(cs@)),
{
    let mut out: Vec<String> = Vec::new();
    let mut i: usize = 0;
    while i < cs.len()
        invariant
            i <= cs@.len(),
            texts(out@) == command_names(command_views(cs@)).take(i as int),
        decreases cs@.len() - i,
    {
        let ghost before = texts(out@);
        out.push(cs[i].name.clone());
        assert(texts(out@) =~= before.push(cs@[i as int].name@));
        assert(command_names(command_views(cs@)).take(i + 1) =~= before.push(
            cs@[i as int].name@,
        ));
        i = i + 1;
    }
    assert(command_names(command_views(cs@)).take(cs@.len() as int) =~= command_names(
        command_views(cs@),
    ));
    out
}

/// The names among `names` other than `x`, in order.
fn others(names: &Vec<String>, x: &str) -> (r: Vec<String>)
    ensures
        texts(r@) == other_than(texts(names@), x@),
{
    let ghost all = texts(names@);
    let mut out: Vec<String> = Vec::new();
    let mut i: usize = 0;
    proof {
        lemma_filter_empty(all, x@);
    }
    while i < names.len()
        invariant
            i <= names@.len(),
            all == texts(names@),
            texts(out@) == other_than(all.take(i as int), x@),
        decreases names@.len() - i,
    {
        proof {
            lemma_other_than_step(all, x@, i as int);
        }
        let ghost before = texts(out@);
        if !same_text(names[i].as_str(), x) {
            out.push(names[i].clone());
            assert(texts(out@) =~= before.push(all[i as int]));
        }
        i = i + 1;
    }
    assert(all.take(names@.len() as int) =~= all);
    out
}

/// Finds the command called `name` in a name-ordered list.
fn find_command(cs: &Vec<Command>, name: &str) -> (r: Option<usize>)
    requires
        sorted(command_names(command_views(cs@))),
    ensures
        match r {
            Some(i) => i < cs@.len() && command_named(command_views(cs@), name@) == Some(
                command_views(cs@)[i as int],
            ),
            None => command_named(command_views(cs@), name@) is None,
        },
{
    let mut i: usize = 0;
    while i < cs.len()
        invariant
            i <= cs@.len(),
            sorted(command_names(command_views(cs@))),
            forall|j: int| 0 <= j < i ==> (#[trigger] command_views(cs@)[j]).name != name@,
        decreases cs@.len() - i,
    {
        if same_text(cs[i].name.as_str(), name) {
            proof {
                lemma_command_named(command_views(cs@), i as int);
            }
            return Some(i);
        }
        i = i + 1;
    }
    None
}

/// The type tags of `args` from position `from` on, joined by single spaces.
fn joined_tags(args: &Vec<Argument>, from: usize) -> (r: String)
    requires
        from <= args@.len(),
    ensures
        r@ == space_joined(type_tags(argument_views(args@).skip(from as int))),
{
    let ghost views = argument_views(args@);
    let mut out = String::new();
    let mut first = true;
    let mut j: usize = from;
    assert(views.subrange(from as int, from as int) =~= Seq::<ArgumentView>::empty());
    while j < args.len()
        invariant
            from <= j <= args@.len(),
            views == argument_views(args@),
            out@ == space_joined(type_tags(views.subrange(from as int, j as int))),
            first == (type_tags(views.subrange(from as int, j as int)).len() == 0),
        decreases args@.len() - j,
    {
        let ghost part = views.subrange(from as int, j as int);
        proof {
            assert(views.subrange(from as int, j + 1) =~= part.push(views[j as int]));
            lemma_type_tags_push(part, views[j as int]);
        }
        match &args[j].arg_type {
            Some(t) => {
                proof {
                    lemma_space_joined_push(type_tags(part), t@);
                    reveal_strlit(" ");
                }
                if !first {
                    out.append(" ");
                }
                out.append(t.as_str());
                first = false;
            },
            None => {},
        }
        j = j + 1;
    }
    assert(views.subrange(from as int, args@.len() as int) =~= views.skip(from as int));
    out
}

impl<'a> BofhHelper<'a> {
    /// Finds the group called `name`.
    fn find_group(&self, name: &str) -> (r: Option<usize>)
        requires
            self.commands.wf(),
        ensures
            match r {
                Some(i) => i < self.commands@.len() && group_named(self.commands@, name@) == Some(
                    self.commands@[i as int],
                ),
                None => group_named(self.commands@, name@) is None,
            },
    {
        let groups = &self.commands.groups;
        let mut i: usize = 0;
        while i < groups.len()
            invariant
                i <= groups@.len(),
                *groups == self.commands.groups,
                self.commands.wf(),
                forall|j: int| 0 <= j < i ==> (#[trigger] self.commands@[j]).name != name@,
            decreases groups@.len() - i,
        {
            if same_text(groups[i].name.as_str(), name) {
                proof {
                    lemma_group_named(self.commands@, i as int);
                }
                return Some(i);
            }
            i = i + 1;
        }
        None
    }

    /// The group names that start with `prefix`, in alphabetic order.
    pub fn command_candidates(&self, prefix: &str) -> (r: Vec<String>)
        ensures
            texts(r@) == starting_with(group_names(self.commands@), prefix@),
    {
        let groups = &self.commands.groups;
        let ghost names = group_names(self.commands@);
        let mut out: Vec<String> = Vec::new();
        let mut i: usize = 0;
        proof {
            lemma_filter_empty(names, prefix@);
        }
        while i < groups.len()
            invariant
                i <= groups@.len(),
                *groups == self.commands.groups,
                names == group_names(self.commands@),
                texts(out@) == starting_with(names.take(i as int), prefix@),
            decreases groups@.len() - i,
        {
            proof {
                lemma_starting_with_step(names, prefix@, i as int);
            }
            let ghost before = texts(out@);
            assert(names[i as int] == groups@[i as int].name@);
            if has_prefix(groups[i].name.as_str(), prefix) {
                out.push(groups[i].name.clone());
                assert(texts(out@) =~= before.push(names[i as int]));
            }
            i = i + 1;
        }
        assert(names.take(groups@.len() as int) =~= names);
        out
    }

    /// The command names of the group called `command` that start with `prefix`, in
    /// alphabetic order; none where there is no such group.
    pub fn subcommand_candidates(&self, command: &str, prefix: &str) -> (r: Vec<String>)
        requires
            self.commands.wf(),
        ensures
            texts(r@) == subcommands_starting_with(self.commands@, command@, prefix@),
    {
        match self.find_group(command) {
            Some(i) => names_starting_with(&self.commands.groups[i].commands, prefix),
            None => {
                let out: Vec<String> = Vec::new();
                assert(texts(out@) =~= Seq::<Seq<char>>::empty());
                out
            },
        }
    }
    /// All group names, in alphabetic order.
    fn group_list(&self) -> (r: Vec<String>)
        ensures
            texts(r@) == group_names(self.commands@),
    {
        let groups = &self.commands.groups;
        let mut out: Vec<String> = Vec::new();
        let mut i: usize = 0;
        while i < groups.len()
            invariant
                i <= groups@.len(),
                *groups == self.commands.groups,
                texts(out@) == group_names(self.commands@).take(i as int),
            decreases groups@.len() - i,
        {
            let ghost before = texts(out@);
            out.push(groups[i].name.clone());
            assert(texts(out@) =~= before.push(groups@[i as int].name@));
            assert(group_names(self.commands@).take(i + 1) =~= before.push(groups@[i as int].name@));
            i = i + 1;
        }
        assert(group_names(self.commands@).take(groups@.len() as int) =~= group_names(
            self.commands@,
        ));
        out
    }

    /// The group that `word` picks out, where exactly one group name starts with it.
    fn resolve_group(&self, word: &str) -> (r: Option<usize>)
        requires
            self.commands.wf(),
        ensures
            match r {
                Some(i) => i < self.commands@.len() && resolved_group(self.commands@, word@)
                    == Some(self.commands@[i as int]),
                None => resolved_group(self.commands@, word@) is None,
            },
    {
        let cands = self.command_candidates(word);
        if cands.len() == 1 {
            let found = self.find_group(cands[0].as_str());
            proof {
                let names = group_names(self.commands@);
                lemma_starting_with_facts(names, word@);
                let c = starting_with(names, word@);
                assert(names.contains(c[0]));
                let j = choose|j: int| 0 <= j < names.len() && names[j] == c[0];
                assert(self.commands@[j].name == c[0]);
            }
            found
        } else {
            None
        }
    }

    /// Completion candidates for `line`, to be inserted at `pos`.
    pub fn complete(&self, line: &str, pos: usize) -> (r: (usize, Vec<Candidate>))
        requires
            self.commands.wf(),
        ensures
            r.0 == pos,
            r.1@.len() == completion_candidates(self.commands@, line@).len(),
            forall|i: int|
                0 <= i < r.1@.len() ==> {
                    let c = completion_candidates(self.commands@, line@);
                    &&& (#[trigger] r.1@[i]).display@ == c[i]
                    &&& r.1@[i].replacement@ == replacement_of(
                        c[i],
                        typed_len(line@),
                        c.len() == 1,
                    )
                },
    {
        let ws = split_words(line);
        let trailing = ends_with_space(line);
        let ghost gs = self.commands@;
        let cands: Vec<String> = if ws.len() == 0 {
            self.group_list()
        } else if ws.len() == 1 && !trailing {
            self.command_candidates(ws[0].as_str())
        } else if ws.len() == 1 {
            match self.resolve_group(ws[0].as_str()) {
                Some(g) => all_names(&self.commands.groups[g].commands),
                None => Vec::new(),
            }
        } else if ws.len() == 2 && !trailing {
            match self.resolve_group(ws[0].as_str()) {
                Some(g) => names_starting_with(&self.commands.groups[g].commands, ws[1].as_str()),
                None => Vec::new(),
            }
        } else {
            Vec::new()
        };
        let ghost want = completion_candidates(gs, line@);
        assert(texts(cands@) =~= want);
        let typed: usize = if ws.len() == 0 || trailing {
            0
        } else {
            ws[ws.len() - 1].unicode_len()
        };
        proof {
            let w = words(line@);
            if w.len() == 1 {
                lemma_starting_with_facts(group_names(gs), w[0]);
            } else if w.len() == 2 {
                if let Some(g) = resolved_group(gs, w[0]) {
                    lemma_starting_with_facts(command_names(g.commands), w[1]);
                }
            }
            assert forall|i: int| 0 <= i < want.len() implies typed <= (#[trigger] want[i]).len() by {
                if typed > 0 {
                    assert(w.len() == 1 || w.len() == 2);
                    assert(ws@[ws@.len() - 1]@ == w.last());
                }
            }
        }
        let only = cands.len() == 1;
        let mut out: Vec<Candidate> = Vec::new();
        let mut i: usize = 0;
        while i < cands.len()
            invariant
                i <= cands@.len(),
                texts(cands@) == want,
                want == completion_candidates(gs, line@),
                gs == self.commands@,
                typed == typed_len(line@),
                only == (want.len() == 1),
                forall|j: int| 0 <= j < want.len() ==> typed <= (#[trigger] want[j]).len(),
                out@.len() == i,
                forall|j: int|
                    0 <= j < i ==> {
                        &&& (#[trigger] out@[j]).display@ == want[j]
                        &&& out@[j].replacement@ == replacement_of(want[j], typed as nat, only)
                    },
            decreases cands@.len() - i,
        {
            assert(cands@[i as int]@ == want[i as int]);
            let mut replacement = suffix_after(cands[i].as_str(), typed);
            if only {
                replacement.append(" ");
                proof {
                    reveal_strlit(" ");
                }
            }
            assert(replacement@ =~= replacement_of(want[i as int], typed as nat, only));
            out.push(Candidate { display: cands[i].clone(), replacement });
            i = i + 1;
        }
        (pos, out)
    }
    /// The argument hint for a line whose words are `ws`, where it applies.
    fn argument_hint(&self, line: &str, ws: &Vec<String>, trailing: bool) -> (r: Option<String>)
        requires
            self.commands.wf(),
            texts(ws@) == words(line@),
            trailing == ends_in_space(line@),
        ensures
            match arg_hint_command(self.commands@, line@) {
                Some(cmd) => r is Some && r->0@ == (if trailing {
                    Seq::empty()
                } else {
                    seq![' ']
                }) + space_joined(type_tags(cmd.args.skip(args_supplied(line@)))),
                None => r is None,
            },
    {
        let ghost w = words(line@);
        if ws.len() < 2 {
            return None;
        }
        assert(ws@[0]@ == w[0] && ws@[1]@ == w[1]);
        let (g, c) = match self.resolve_command(ws[0].as_str(), ws[1].as_str()) {
            Some(found) => found,
            None => {
                return None;
            },
        };
        let cmd = &self.commands.groups[g].commands[c];
        if !(trailing || same_text(ws[1].as_str(), cmd.name.as_str())) {
            return None;
        }
        let n = ws.len();
        if !trailing && n < 3 {
            return None;
        }
        let supplied = if trailing {
            n - 2
        } else {
            n - 3
        };
        if supplied >= cmd.args.len() {
            return None;
        }
        let mut out = String::new();
        if !trailing {
            out.append(" ");
            proof {
                reveal_strlit(" ");
            }
        }
        let tags = joined_tags(&cmd.args, supplied);
        out.append(tags.as_str());
        Some(out)
    }

    /// The inline hint for `line` with the cursor at `pos`: only at the end of a
    /// non-empty line.
    pub fn hint(&self, line: &str, pos: usize) -> (r: Option<String>)
        requires
            self.commands.wf(),
        ensures
            opt_text(r) == if pos != line.len() {
                None
            } else {
                hint_text(self.commands@, line@)
            },
    {
        let ws = split_words(line);
        if ws.len() == 0 || pos != line.len() {
            return None;
        }
        let trailing = ends_with_space(line);
        let ghost gs = self.commands@;
        let ghost w = words(line@);
        if let Some(h) = self.argument_hint(line, &ws, trailing) {
            return Some(h);
        }
        if trailing {
            return None;
        }
        let cands: Vec<String> = if ws.len() == 1 {
            others(&self.command_candidates(ws[0].as_str()), ws[0].as_str())
        } else if ws.len() == 2 {
            match self.resolve_group(ws[0].as_str()) {
                Some(g) => others(
                    &names_starting_with(&self.commands.groups[g].commands, ws[1].as_str()),
                    ws[1].as_str(),
                ),
                None => Vec::new(),
            }
        } else {
            Vec::new()
        };
        assert(texts(cands@) =~= hint_candidates(gs, line@));
        if cands.len() == 1 {
            let typed = ws[ws.len() - 1].unicode_len();
            proof {
                assert(ws@[ws@.len() - 1]@ == w.last());
                assert(cands@[0]@ == hint_candidates(gs, line@)[0]);
                if w.len() == 1 {
                    let sw = starting_with(group_names(gs), w[0]);
                    lemma_starting_with_facts(group_names(gs), w[0]);
                    lemma_other_than_facts(sw, w[0]);
                } else {
                    let g = resolved_group(gs, w[0])->0;
                    let sw = starting_with(command_names(g.commands), w[1]);
                    lemma_starting_with_facts(command_names(g.commands), w[1]);
                    lemma_other_than_facts(sw, w[1]);
                }
            }
            Some(suffix_after(cands[0].as_str(), typed))
        } else {
            None
        }
    }
    /// The group and command that `w0 w1` pick out, each by exactly one name starting
    /// with the word.
    fn resolve_command(&self, w0: &str, w1: &str) -> (r: Option<(usize, usize)>)
        requires
            self.commands.wf(),
        ensures
            match r {
                Some((g, c)) => g < self.commands@.len() && c
                    < self.commands@[g as int].commands.len() && resolved_group(
                    self.commands@,
                    w0@,
                ) == Some(self.commands@[g as int]) && resolved_command(self.commands@, w0@, w1@)
                    == Some(self.commands@[g as int].commands[c as int]),
                None => resolved_command(self.commands@, w0@, w1@) is None,
            },
    {
        let ghost gs = self.commands@;
        let g = match self.resolve_group(w0) {
            Some(g) => g,
            None => {
                return None;
            },
        };
        let group = &self.commands.groups[g];
        assert(group@ == gs[g as int]);
        assert(sorted(command_names(gs[g as int].commands)));
        let cands = names_starting_with(&group.commands, w1);
        if cands.len() != 1 {
            return None;
        }
        proof {
            let names = command_names(command_views(group.commands@));
            lemma_starting_with_facts(names, w1@);
            assert(names.contains(cands@[0]@));
            let j = choose|j: int| 0 <= j < names.len() && names[j] == cands@[0]@;
            assert(command_views(group.commands@)[j].name == cands@[0]@);
        }
        match find_command(&group.commands, cands[0].as_str()) {
            Some(c) => Some((g, c)),
            None => None,
        }
    }

    /// Resolves a typed command line: nothing for an empty line; an unknown command
    /// where the first word picks out no group, or the second no command; an
    /// incomplete command, with the group's subcommands, where only a group is given;
    /// else the command's full name with the remaining words as its arguments.
    pub fn resolve(&self, line: &str) -> (r: Result<Option<Invocation>, BofhError>)
        requires
            self.commands.wf(),
        ensures
            words(line@).len() == 0 ==> r matches Ok(None),
            words(line@).len() > 0 && resolved_group(self.commands@, words(line@)[0]) is None
                ==> (r matches Err(BofhError::UnknownCommand(m)) && m@ == words(line@)[0]),
            words(line@).len() == 1 && resolved_group(self.commands@, words(line@)[0]) is Some
                ==> (r matches Err(BofhError::IncompleteCommand(name, subs)) && name@
                == resolved_group(self.commands@, words(line@)[0])->0.name && texts(subs@)
                == command_names(resolved_group(self.commands@, words(line@)[0])->0.commands)),
            words(line@).len() >= 2 && resolved_group(self.commands@, words(line@)[0]) is Some
                && resolved_command(self.commands@, words(line@)[0], words(line@)[1]) is None
                ==> (r matches Err(BofhError::UnknownCommand(m)) && m@ == words(line@)[0]
                + seq![' '] + words(line@)[1]),
            words(line@).len() >= 2 && resolved_command(
                self.commands@,
                words(line@)[0],
                words(line@)[1],
            ) is Some ==> (r matches Ok(Some(inv)) && inv.fullname@ == resolved_command(
                self.commands@,
                words(line@)[0],
                words(line@)[1],
            )->0.fullname && texts(inv.args@) == words(line@).skip(2)),
    {
        let ws = split_words(line);
        let ghost w = words(line@);
        if ws.len() == 0 {
            return Ok(None);
        }
        assert(ws@[0]@ == w[0]);
        let g = match self.resolve_group(ws[0].as_str()) {
            Some(g) => g,
            None => {
                return Err(BofhError::UnknownCommand(ws[0].clone()));
            },
        };
        let group = &self.commands.groups[g];
        if ws.len() == 1 {
            return Err(BofhError::IncompleteCommand(group.name.clone(), all_names(&group.commands)));
        }
        assert(ws@[1]@ == w[1]);
        match self.resolve_command(ws[0].as_str(), ws[1].as_str()) {
            Some((g, c)) => {
                let cmd = &self.commands.groups[g].commands[c];
                let mut args: Vec<String> = Vec::new();
                let mut i: usize = 2;
                assert(w.subrange(2, 2) =~= Seq::<Seq<char>>::empty());
                while i < ws.len()
                    invariant
                        2 <= i <= ws@.len(),
                        texts(ws@) == w,
                        texts(args@) == w.subrange(2, i as int),
                    decreases ws@.len() - i,
                {
                    let ghost before = texts(args@);
                    args.push(ws[i].clone());
                    assert(texts(args@) =~= before.push(w[i as int]));
                    assert(w.subrange(2, i + 1) =~= before.push(w[i as int]));
                    i = i + 1;
                }
                assert(w.subrange(2, w.len() as int) =~= w.skip(2));
                Ok(Some(Invocation { fullname: cmd.fullname.clone(), args }))
            },
            None => {
                let mut m = ws[0].clone();
                m.append(" ");
                m.append(ws[1].as_str());
                proof {
                    reveal_strlit(" ");
                }
                assert(m@ =~= w[0] + seq![' '] + w[1]);
                Err(BofhError::UnknownCommand(m))
            },
        }
    }

    /// The first two typed words, each with how many names it matches: the groups
    /// starting with the first; the commands starting with the second in the group the
    /// first picks out (none where it picks out no single group).
    pub fn highlight(&self, line: &str) -> (r: Vec<Marked>)
        requires
            self.commands.wf(),
        ensures
            r@.len() == if words(line@).len() < 2 {
                words(line@).len() as int
            } else {
                2
            },
            r@.len() > 0 ==> r@[0].word@ == words(line@)[0] && r@[0].status == match_of(
                starting_with(group_names(self.commands@), words(line@)[0]).len() as int,
            ),
            r@.len() > 1 ==> r@[1].word@ == words(line@)[1] && r@[1].status == match_of(
                match resolved_group(self.commands@, words(line@)[0]) {
                    Some(g) => starting_with(command_names(g.commands), words(line@)[1]).len() as int,
                    None => 0,
                },
            ),
    {
        let ws = split_words(line);
        let ghost w = words(line@);
        let mut out: Vec<Marked> = Vec::new();
        if ws.len() == 0 {
            return out;
        }
        assert(ws@[0]@ == w[0]);
        let groups = self.command_candidates(ws[0].as_str());
        let first = if groups.len() == 0 {
            Match::Unknown
        } else if groups.len() == 1 {
            Match::Unique
        } else {
            Match::Ambiguous
        };
        out.push(Marked { word: ws[0].clone(), status: first });
        if ws.len() > 1 {
            assert(ws@[1]@ == w[1]);
            let n = match self.resolve_group(ws[0].as_str()) {
                Some(g) => names_starting_with(&self.commands.groups[g].commands, ws[1].as_str()).len(),
                None => 0,
            };
            let second = if n == 0 {
                Match::Unknown
            } else if n == 1 {
                Match::Unique
            } else {
                Match::Ambiguous
            };
            out.push(Marked { word: ws[1].clone(), status: second });
        }
        out
    }
}

} // verus!
