use bofh::text::split_words;
use bofh::{build_schema, BofhError, BofhHelper, Match, RawValue, Schema};

fn s(x: &str) -> RawValue {
    RawValue::Str(x.to_string())
}

fn arr(v: Vec<RawValue>) -> RawValue {
    RawValue::Array(v)
}

fn st(v: Vec<(&str, RawValue)>) -> RawValue {
    RawValue::Struct(v.into_iter().map(|(k, x)| (k.to_string(), x)).collect())
}

fn typed(t: &str) -> RawValue {
    st(vec![("type", s(t))])
}

fn entry(group: &str, name: &str, args: Vec<RawValue>) -> RawValue {
    arr(vec![arr(vec![s(group), s(name)]), arr(args)])
}

fn one_command() -> Schema {
    build_schema(&st(vec![("user_create", entry("user", "create", vec![typed("uname")]))])).unwrap()
}

fn sample() -> Schema {
    build_schema(&st(vec![
        ("user_create", entry("user", "create", vec![typed("uname"), typed("gname")])),
        ("user_info", entry("user", "info", vec![typed("uname")])),
        ("user_inform", entry("user", "inform", vec![])),
        ("spread_set", entry("spread", "set", vec![typed("a"), st(vec![]), typed("b")])),
        ("group_add", entry("group", "add", vec![typed("gname")])),
    ]))
    .unwrap()
}

fn user_and_usermap() -> Schema {
    build_schema(&st(vec![
        ("user_info", entry("user", "info", vec![typed("uname")])),
        ("usermap_set", entry("usermap", "set", vec![])),
    ]))
    .unwrap()
}

fn completions(h: &BofhHelper, line: &str) -> (usize, Vec<(String, String)>) {
    let (at, c) = h.complete(line, line.len());
    (at, c.into_iter().map(|c| (c.display, c.replacement)).collect())
}

fn shown(h: &BofhHelper, line: &str) -> Vec<String> {
    completions(h, line).1.into_iter().map(|(d, _)| d).collect()
}

#[test]
fn words_split_on_any_whitespace() {
    assert_eq!(split_words("  user\tcreate  x "), vec!["user", "create", "x"]);
    assert!(split_words(" \t ").is_empty());
}

#[test]
fn single_command_scenario() {
    let schema = one_command();
    let h = BofhHelper { commands: &schema };
    assert_eq!(shown(&h, "us"), vec!["user"]);
    assert_eq!(shown(&h, "user "), vec!["create"]);
    assert_eq!(h.hint("user create", 11), None);
    assert_eq!(h.hint("user create ", 12).as_deref(), Some("uname"));
}

#[test]
fn ambiguous_groups_scenario() {
    let schema = user_and_usermap();
    let h = BofhHelper { commands: &schema };
    assert_eq!(shown(&h, "us"), vec!["user", "usermap"]);
    assert_eq!(h.hint("us", 2), None);
}

#[test]
fn ambiguous_group_blocks_subcommands() {
    let schema = user_and_usermap();
    let h = BofhHelper { commands: &schema };
    assert_eq!(shown(&h, "user"), vec!["user", "usermap"]);
    assert!(shown(&h, "user ").is_empty());
    assert!(shown(&h, "user in").is_empty());
    assert_eq!(h.hint("user", 4).as_deref(), Some("map"));
    assert_eq!(h.hint("user info ", 10), None);
    match h.resolve("user info alice") {
        Err(BofhError::UnknownCommand(m)) => assert_eq!(m, "user"),
        other => panic!("unexpected {:?}", other),
    }
    let m = h.highlight("us in x");
    assert_eq!(m.len(), 2);
    assert_eq!(m[0].word, "us");
    assert_eq!(m[0].status, Match::Ambiguous);
    assert_eq!(m[1].word, "in");
    assert_eq!(m[1].status, Match::Unknown);
}

#[test]
fn empty_line_completes_every_group() {
    let schema = sample();
    let h = BofhHelper { commands: &schema };
    assert_eq!(shown(&h, ""), vec!["group", "spread", "user"]);
    assert_eq!(shown(&h, "   "), vec!["group", "spread", "user"]);
    assert_eq!(h.command_candidates(""), vec!["group", "spread", "user"]);
}

#[test]
fn one_word_completes_matching_groups() {
    let schema = sample();
    let h = BofhHelper { commands: &schema };
    assert_eq!(shown(&h, "user"), vec!["user"]);
    assert_eq!(shown(&h, "g"), vec!["group"]);
    assert!(shown(&h, "x").is_empty());
    assert_eq!(h.command_candidates("s"), vec!["spread"]);
}

#[test]
fn replacements_splice_after_typed_text() {
    let schema = sample();
    let h = BofhHelper { commands: &schema };
    assert_eq!(completions(&h, "gr"), (2, vec![("group".to_string(), "oup ".to_string())]));
    let schema2 = user_and_usermap();
    let h2 = BofhHelper { commands: &schema2 };
    assert_eq!(
        completions(&h2, "us").1,
        vec![("user".to_string(), "er".to_string()), ("usermap".to_string(), "ermap".to_string())]
    );
    assert_eq!(
        completions(&h, "user cr").1,
        vec![("create".to_string(), "eate ".to_string())]
    );
    assert_eq!(
        completions(&h, "group ").1,
        vec![("add".to_string(), "add ".to_string())]
    );
}

#[test]
fn subcommand_completion_needs_one_group() {
    let schema = sample();
    let h = BofhHelper { commands: &schema };
    assert!(shown(&h, "x ").is_empty());
    assert_eq!(shown(&h, "user in"), vec!["info", "inform"]);
    assert_eq!(shown(&h, "us in"), vec!["info", "inform"]);
    assert!(shown(&h, "x in").is_empty());
    assert!(shown(&h, "user info ").is_empty());
    assert!(shown(&h, "user info x").is_empty());
    assert_eq!(h.subcommand_candidates("user", "in"), vec!["info", "inform"]);
    assert!(h.subcommand_candidates("use", "").is_empty());
}

#[test]
fn hint_only_at_end_of_line() {
    let schema = sample();
    let h = BofhHelper { commands: &schema };
    assert_eq!(h.hint("gr", 2).as_deref(), Some("oup"));
    assert_eq!(h.hint("gr", 1), None);
    assert_eq!(h.hint("gr", 3), None);
    assert_eq!(h.hint("", 0), None);
}

#[test]
fn hint_completes_unambiguous_words() {
    let schema = sample();
    let h = BofhHelper { commands: &schema };
    assert_eq!(h.hint("us", 2).as_deref(), Some("er"));
    assert_eq!(h.hint("user", 4), None);
    assert_eq!(h.hint("user cr", 7).as_deref(), Some("eate"));
    assert_eq!(h.hint("user in", 7), None);
    assert_eq!(h.hint("user info", 9).as_deref(), Some("rm"));
    assert_eq!(h.hint("x", 1), None);
}

#[test]
fn no_hint_after_whitespace_without_arguments() {
    let schema = sample();
    let h = BofhHelper { commands: &schema };
    assert_eq!(h.hint("gr ", 3), None);
    assert_eq!(h.hint("group ", 6), None);
    assert_eq!(h.hint("user inform ", 12), None);
}

#[test]
fn argument_hints_shrink_by_one() {
    let schema = sample();
    let h = BofhHelper { commands: &schema };
    assert_eq!(h.hint("user create ", 12).as_deref(), Some("uname gname"));
    assert_eq!(h.hint("user create a ", 14).as_deref(), Some("gname"));
    assert_eq!(h.hint("user create a b ", 16), None);
    assert_eq!(h.hint("user create a b c ", 18), None);
    assert_eq!(h.hint("user create a", 13).as_deref(), Some(" uname gname"));
    assert_eq!(h.hint("user cr ", 8).as_deref(), Some("uname gname"));
    assert_eq!(h.hint("spread set ", 11).as_deref(), Some("a b"));
    assert_eq!(h.hint("group add ", 10).as_deref(), Some("gname"));
}

#[test]
fn resolve_command_lines() {
    let schema = sample();
    let h = BofhHelper { commands: &schema };
    assert!(matches!(h.resolve("  "), Ok(None)));
    match h.resolve("user cr alice staff") {
        Ok(Some(inv)) => {
            assert_eq!(inv.fullname, "user_create");
            assert_eq!(inv.args, vec!["alice", "staff"]);
        },
        other => panic!("unexpected {:?}", other),
    }
    match h.resolve("x") {
        Err(BofhError::UnknownCommand(m)) => assert_eq!(m, "x"),
        other => panic!("unexpected {:?}", other),
    }
    match h.resolve("user in") {
        Err(BofhError::UnknownCommand(m)) => assert_eq!(m, "user in"),
        other => panic!("unexpected {:?}", other),
    }
    match h.resolve("gr") {
        Err(BofhError::IncompleteCommand(g, subs)) => {
            assert_eq!(g, "group");
            assert_eq!(subs, vec!["add"]);
        },
        other => panic!("unexpected {:?}", other),
    }
}

#[test]
fn highlight_marks_match_classes() {
    let schema = sample();
    let h = BofhHelper { commands: &schema };
    let m = h.highlight("gr a");
    assert_eq!(m[0].status, Match::Unique);
    assert_eq!(m[1].status, Match::Unique);
    let m = h.highlight("user in");
    assert_eq!(m[1].status, Match::Ambiguous);
    assert_eq!(h.highlight("zz")[0].status, Match::Unknown);
    assert!(h.highlight(" ").is_empty());
}
