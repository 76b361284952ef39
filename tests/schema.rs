use bofh::{build_schema, parse_argument, RawValue, Schema};

fn s(x: &str) -> RawValue {
    RawValue::Str(x.to_string())
}

fn arr(v: Vec<RawValue>) -> RawValue {
    RawValue::Array(v)
}

fn st(v: Vec<(&str, RawValue)>) -> RawValue {
    RawValue::Struct(v.into_iter().map(|(k, x)| (k.to_string(), x)).collect())
}

fn entry(group: &str, name: &str, args: RawValue) -> RawValue {
    arr(vec![arr(vec![s(group), s(name)]), args])
}

fn names(schema: &Schema) -> Vec<String> {
    schema.groups.iter().map(|g| g.name.clone()).collect()
}

#[test]
fn argument_flags_from_strings() {
    let a = parse_argument(&st(vec![("optional", s("True")), ("repeat", s("False"))])).unwrap();
    assert!(a.optional);
    assert!(!a.repeat);
}

#[test]
fn argument_without_optional_key_is_required() {
    let a = parse_argument(&st(vec![("type", s("uname"))])).unwrap();
    assert!(!a.optional);
    assert!(!a.repeat);
    assert_eq!(a.arg_type.as_deref(), Some("uname"));
}

#[test]
fn argument_flags_from_booleans_and_other_values() {
    let a = parse_argument(&st(vec![
        ("optional", RawValue::Bool(true)),
        ("repeat", s("true")),
    ]))
    .unwrap();
    assert!(a.optional);
    assert!(!a.repeat);
    let b = parse_argument(&st(vec![("optional", RawValue::Other), ("repeat", RawValue::Bool(true))]))
        .unwrap();
    assert!(!b.optional);
    assert!(b.repeat);
}

#[test]
fn argument_text_attributes() {
    let a = parse_argument(&st(vec![
        ("default", s("d")),
        ("help_ref", s("h")),
        ("prompt", s("Name")),
        ("type", s("t")),
    ]))
    .unwrap();
    assert_eq!(a.default.as_deref(), Some("d"));
    assert_eq!(a.help_ref.as_deref(), Some("h"));
    assert_eq!(a.prompt.as_deref(), Some("Name"));
    assert_eq!(a.arg_type.as_deref(), Some("t"));
}

#[test]
fn non_string_attributes_are_absent() {
    let a = parse_argument(&st(vec![
        ("type", RawValue::Bool(true)),
        ("default", RawValue::Other),
        ("help_ref", arr(vec![])),
        ("prompt", s("Name")),
    ]))
    .unwrap();
    assert!(a.arg_type.is_none());
    assert!(a.default.is_none());
    assert!(a.help_ref.is_none());
    assert_eq!(a.prompt.as_deref(), Some("Name"));
    assert!(parse_argument(&s("x")).is_none());
}

#[test]
fn single_command_catalogue() {
    let raw = st(vec![(
        "user_create",
        entry("user", "create", arr(vec![st(vec![("type", s("uname"))])])),
    )]);
    let schema = build_schema(&raw).unwrap();
    assert_eq!(names(&schema), vec!["user"]);
    let group = &schema.groups[0];
    assert_eq!(group.commands.len(), 1);
    let cmd = &group.commands[0];
    assert_eq!(cmd.name, "create");
    assert_eq!(cmd.fullname, "user_create");
    assert_eq!(cmd.args.len(), 1);
    assert_eq!(cmd.args[0].arg_type.as_deref(), Some("uname"));
    assert!(cmd.format_suggestion.is_none());
    assert!(cmd.help.is_none());
}

#[test]
fn groups_and_commands_come_out_sorted() {
    let raw = st(vec![
        ("a_x", entry("zeta", "b", RawValue::Other)),
        ("b_x", entry("alpha", "y", RawValue::Other)),
        ("c_x", entry("alpha", "x", RawValue::Other)),
        ("d_x", entry("mid", "q", RawValue::Other)),
    ]);
    let schema = build_schema(&raw).unwrap();
    assert_eq!(names(&schema), vec!["alpha", "mid", "zeta"]);
    let alpha: Vec<&str> = schema.groups[0].commands.iter().map(|c| c.name.as_str()).collect();
    assert_eq!(alpha, vec!["x", "y"]);
}

#[test]
fn later_entry_overwrites_same_command() {
    let raw = st(vec![
        ("first", entry("user", "info", RawValue::Other)),
        ("second", entry("user", "info", s("prompt"))),
    ]);
    let schema = build_schema(&raw).unwrap();
    assert_eq!(schema.groups[0].commands.len(), 1);
    assert_eq!(schema.groups[0].commands[0].fullname, "second");
}

#[test]
fn prompt_marker_gives_one_blank_argument() {
    let raw = st(vec![("user_info", entry("user", "info", s("prompt_func")))]);
    let schema = build_schema(&raw).unwrap();
    let args = &schema.groups[0].commands[0].args;
    assert_eq!(args.len(), 1);
    assert!(!args[0].optional && !args[0].repeat);
    assert!(args[0].default.is_none() && args[0].arg_type.is_none());
    assert!(args[0].help_ref.is_none() && args[0].prompt.is_none());
}

#[test]
fn missing_argument_list_gives_no_arguments() {
    let raw = st(vec![
        ("a", entry("g", "a", RawValue::Other)),
        ("b", arr(vec![arr(vec![s("g"), s("b")])])),
    ]);
    let schema = build_schema(&raw).unwrap();
    assert!(schema.groups[0].commands.iter().all(|c| c.args.is_empty()));
}

#[test]
fn malformed_catalogues_are_refused() {
    assert!(build_schema(&s("x")).is_none());
    assert!(build_schema(&st(vec![("a", s("x"))])).is_none());
    assert!(build_schema(&st(vec![("a", arr(vec![arr(vec![s("g")])]))])).is_none());
    let kept = build_schema(&st(vec![(
        "a",
        entry("g", "a", arr(vec![st(vec![("default", RawValue::Bool(false))])])),
    )]))
    .unwrap();
    assert!(kept.groups[0].commands[0].args[0].default.is_none());
    assert!(build_schema(&st(vec![("a", entry("g", "a", arr(vec![s("x")])))])).is_none());
}

#[test]
fn empty_catalogue_gives_empty_schema() {
    let schema = build_schema(&st(vec![])).unwrap();
    assert!(schema.groups.is_empty());
    assert!(Schema::empty().groups.is_empty());
}

#[test]
fn building_twice_gives_equal_schemas() {
    let raw = st(vec![
        ("user_create", entry("user", "create", arr(vec![st(vec![("type", s("uname"))])]))),
        ("group_add", entry("group", "add", s("p"))),
    ]);
    let a = build_schema(&raw).unwrap();
    let b = build_schema(&raw).unwrap();
    assert_eq!(format!("{:?}", a.groups), format!("{:?}", b.groups));
}
