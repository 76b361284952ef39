use bofh::{classify_fault, handle_reply, Bofh, BofhError, RawValue, RemoteCall, Reply, Step};

fn params(call: &RemoteCall) -> Vec<&str> {
    call.params.iter().map(|p| p.as_str()).collect()
}

#[test]
fn connect() {
    let _bofh = Bofh::new(String::from("https://cerebrum-uio-test.uio.no:8000"));
}

#[test]
fn new_client_has_no_session_or_motd() {
    let bofh = Bofh::new(String::from("https://example.org:8000"));
    assert_eq!(bofh.url, "https://example.org:8000");
    assert!(bofh.motd.is_none());
    assert!(bofh.session.is_none());
}

#[test]
fn cerebrum_error_fault_is_domain_error() {
    match classify_fault("Cerebrum.modules.bofhd.errors.CerebrumError:Entity not found") {
        Some(BofhError::CerebrumError(m)) => assert_eq!(m, "Entity not found"),
        other => panic!("unexpected {:?}", other),
    }
}

#[test]
fn not_implemented_fault() {
    match classify_fault("NotImplementedError:no such thing") {
        Some(BofhError::NotImplementedError(m)) => assert_eq!(m, "no such thing"),
        other => panic!("unexpected {:?}", other),
    }
}

#[test]
fn session_expired_fault() {
    assert!(matches!(
        classify_fault("Cerebrum.modules.bofhd.errors.SessionExpiredError:gone"),
        Some(BofhError::SessionExpiredError)
    ));
}

#[test]
fn server_restarted_fault_is_not_an_error() {
    assert!(classify_fault("Cerebrum.modules.bofhd.errors.ServerRestartedError:").is_none());
}

#[test]
fn other_faults_keep_the_raw_string() {
    let raw = "Cerebrum.modules.bofhd.errors.PermissionDenied:no";
    match classify_fault(raw) {
        Some(BofhError::Fault(m)) => assert_eq!(m, raw),
        other => panic!("unexpected {:?}", other),
    }
    match classify_fault("KeyError: 'x'") {
        Some(BofhError::Fault(m)) => assert_eq!(m, "KeyError: 'x'"),
        other => panic!("unexpected {:?}", other),
    }
}

#[test]
fn restart_is_retried_once() {
    let fault = "Cerebrum.modules.bofhd.errors.ServerRestartedError:".to_string();
    assert!(matches!(handle_reply(Reply::Fault(fault.clone()), false), Step::Retry));
    match handle_reply(Reply::Fault(fault), true) {
        Step::Done(Err(BofhError::XmlRpcError(m))) => assert_eq!(m, "Server restarted"),
        other => panic!("unexpected {:?}", other),
    }
}

#[test]
fn values_and_transport_failures_end_the_call() {
    match handle_reply(Reply::Value(RawValue::Str("hi".to_string())), false) {
        Step::Done(Ok(RawValue::Str(s))) => assert_eq!(s, "hi"),
        other => panic!("unexpected {:?}", other),
    }
    match handle_reply(Reply::Transport("refused".to_string()), false) {
        Step::Done(Err(BofhError::XmlRpcError(m))) => assert_eq!(m, "refused"),
        other => panic!("unexpected {:?}", other),
    }
    match handle_reply(
        Reply::Fault("Cerebrum.modules.bofhd.errors.CerebrumError:bad".to_string()),
        true,
    ) {
        Step::Done(Err(BofhError::CerebrumError(m))) => assert_eq!(m, "bad"),
        other => panic!("unexpected {:?}", other),
    }
}

#[test]
fn motd_call_and_reply() {
    let mut bofh = Bofh::new("u".to_string());
    let call = bofh.get_motd();
    assert_eq!(call.method, "get_motd");
    assert!(call.params.is_empty());
    assert!(matches!(bofh.accept_motd(RawValue::Other), Err(BofhError::InvalidResponse)));
    assert!(bofh.motd.is_none());
    assert!(bofh.accept_motd(RawValue::Str("Welcome".to_string())).is_ok());
    assert_eq!(bofh.motd.as_deref(), Some("Welcome"));
}

#[test]
fn session_calls_need_a_session() {
    let bofh = Bofh::new("u".to_string());
    assert!(matches!(bofh.commands_call(), Err(BofhError::NoSessionError)));
    assert!(matches!(
        bofh.run_command("user_info", &vec!["alice".to_string()]),
        Err(BofhError::NoSessionError)
    ));
}

#[test]
fn login_then_session_calls() {
    let mut bofh = Bofh::new("u".to_string());
    let call = bofh.login("alice", "secret".to_string());
    assert_eq!(call.method, "login");
    assert_eq!(params(&call), vec!["alice", "secret"]);
    assert!(matches!(bofh.accept_login(RawValue::Bool(true)), Err(BofhError::InvalidResponse)));
    let next = bofh.accept_login(RawValue::Str("tok".to_string())).unwrap();
    assert_eq!(next.method, "get_commands");
    assert_eq!(params(&next), vec!["tok"]);
    let run = bofh
        .run_command("user_info", &vec!["bob".to_string(), "x".to_string()])
        .unwrap();
    assert_eq!(run.method, "run_command");
    assert_eq!(params(&run), vec!["tok", "user_info", "bob", "x"]);
    let out = bofh.logout().unwrap();
    assert_eq!(out.method, "logout");
    assert_eq!(params(&out), vec!["tok"]);
    assert!(bofh.session.is_none());
    assert!(bofh.logout().is_none());
}

#[test]
fn get_commands_builds_the_schema() {
    let bofh = Bofh::new("u".to_string());
    let entry = RawValue::Array(vec![
        RawValue::Array(vec![
            RawValue::Str("user".to_string()),
            RawValue::Str("create".to_string()),
        ]),
        RawValue::Array(vec![RawValue::Struct(vec![(
            "type".to_string(),
            RawValue::Bool(true),
        )])]),
    ]);
    let catalogue = RawValue::Struct(vec![("user_create".to_string(), entry)]);
    let schema = bofh.get_commands(&catalogue).unwrap();
    assert_eq!(schema.groups.len(), 1);
    assert_eq!(schema.groups[0].name, "user");
    let cmd = &schema.groups[0].commands[0];
    assert_eq!(cmd.fullname, "user_create");
    assert_eq!(cmd.args.len(), 1);
    assert!(cmd.args[0].arg_type.is_none());
    assert!(matches!(
        bofh.get_commands(&RawValue::Str("x".to_string())),
        Err(BofhError::InvalidResponse)
    ));
}
