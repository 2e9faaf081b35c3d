use clipygo::settings::PluginProvider;
use clipygo::subprocess::{
    call_start, call_step, classify_line, config_schema_reply, is_enabled, launch_plan,
    parse_command, reader_step, reply_outcome, CallAction, CallEvent, LineKind, ProviderState,
    ReadOutcome, ReaderAction,
};
use clipygo::subprocess::is_incoming_message;

#[test]
fn parse_command_simple() {
    let (prog, args) = parse_command("node plugin.js").unwrap();
    assert_eq!(prog, "node");
    assert_eq!(args, vec!["plugin.js"]);
}

#[test]
fn parse_command_no_args() {
    let (prog, args) = parse_command("myplugin").unwrap();
    assert_eq!(prog, "myplugin");
    assert!(args.is_empty());
}

#[test]
fn parse_command_multiple_args() {
    let (prog, args) = parse_command("node plugin.js --verbose --port 8080").unwrap();
    assert_eq!(prog, "node");
    assert_eq!(args, vec!["plugin.js", "--verbose", "--port", "8080"]);
}

#[test]
fn parse_command_quoted_program() {
    let (prog, args) = parse_command(r#""C:\path with spaces\plugin.exe" --arg"#).unwrap();
    assert_eq!(prog, r"C:\path with spaces\plugin.exe");
    assert_eq!(args, vec!["--arg"]);
}

#[test]
fn parse_command_quoted_arg() {
    let (prog, args) = parse_command(r#"node "my plugin.js""#).unwrap();
    assert_eq!(prog, "node");
    assert_eq!(args, vec!["my plugin.js"]);
}

#[test]
fn parse_command_extra_spaces() {
    let (prog, args) = parse_command("node  plugin.js").unwrap();
    assert_eq!(prog, "node");
    assert_eq!(args, vec!["plugin.js"]);
}

#[test]
fn parse_command_empty_returns_none() {
    assert!(parse_command("").is_none());
}

#[test]
fn parse_command_whitespace_only_returns_none() {
    assert!(parse_command("   ").is_none());
}

fn event_value(kind: LineKind) -> serde_json::Value {
    match kind {
        LineKind::Event(d) => serde_json::from_str(d.text()).unwrap(),
        _ => panic!("Expected Event"),
    }
}

#[test]
fn classify_line_empty_string() {
    assert!(matches!(classify_line(""), LineKind::Empty));
}

#[test]
fn classify_line_whitespace_only() {
    assert!(matches!(classify_line("   \n"), LineKind::Empty));
}

#[test]
fn classify_line_event_with_event_field() {
    let line = r#"{"event":"incoming_message","data":{"from_name":"Alice"}}"#;
    let v = event_value(classify_line(line));
    assert_eq!(v["event"], "incoming_message");
    assert_eq!(v["data"]["from_name"], "Alice");
}

#[test]
fn classify_line_event_with_whitespace() {
    let line = r#"  {"event":"connection_status","data":{"status":"connected"}}  "#;
    let v = event_value(classify_line(line));
    assert_eq!(v["event"], "connection_status");
}

#[test]
fn classify_line_response_json_without_event() {
    let line = r#"{"targets":[]}"#;
    match classify_line(line) {
        LineKind::Response(s) => assert_eq!(s, r#"{"targets":[]}"#),
        _ => panic!("Expected Response"),
    }
}

#[test]
fn classify_line_response_non_json() {
    let line = "not json at all";
    match classify_line(line) {
        LineKind::Response(s) => assert_eq!(s, "not json at all"),
        _ => panic!("Expected Response"),
    }
}

#[test]
fn classify_line_response_json_with_event_null() {
    let line = r#"{"event":null}"#;
    let v = event_value(classify_line(line));
    assert!(v.get("event").is_some());
}

#[test]
fn reader_loop_eof_sends_error() {
    match reader_step(ReadOutcome::Eof) {
        ReaderAction::Stop(m) => assert!(m.contains("closed stdout")),
        _ => panic!("Expected Stop"),
    }
}

#[test]
fn reader_step_read_error_and_lines() {
    match reader_step(ReadOutcome::Failed("boom".into())) {
        ReaderAction::Stop(m) => assert_eq!(m, "Read error: boom"),
        _ => panic!("Expected Stop"),
    }
    assert!(matches!(reader_step(ReadOutcome::Line("  \n".into())), ReaderAction::Skip));
    match reader_step(ReadOutcome::Line("{\"success\":true}\n".into())) {
        ReaderAction::Respond(s) => assert_eq!(s, "{\"success\":true}"),
        _ => panic!("Expected Respond"),
    }
    assert!(matches!(
        reader_step(ReadOutcome::Line("{\"event\":\"e1\"}".into())),
        ReaderAction::Event(_)
    ));
}

#[test]
fn replies_and_schema() {
    assert!(reply_outcome(true, None).is_ok());
    assert_eq!(reply_outcome(false, Some("nope".into())).unwrap_err(), "nope");
    assert_eq!(reply_outcome(false, None).unwrap_err(), "Unknown plugin error");
    let d = config_schema_reply("p", r#"{"schema":{},"values":{}}"#).unwrap();
    assert_eq!(d.text(), r#"{"schema":{},"values":{}}"#);
    assert_eq!(
        config_schema_reply("p", r#"{"values":{}}"#).unwrap_err(),
        "Plugin 'p' get_config_schema: missing 'schema' field"
    );
    assert!(config_schema_reply("p", "garbage")
        .unwrap_err()
        .starts_with("Plugin 'p' bad get_config_schema response: "));
}

fn provider(id: &str, command: &str, enabled: bool) -> PluginProvider {
    PluginProvider {
        id: id.into(),
        name: "demo".into(),
        command: command.into(),
        enabled,
        registry_id: None,
        version: None,
    }
}

#[test]
fn launch_plan_and_enabled() {
    let (prog, args) = launch_plan(&provider("1", "node x.js", true)).unwrap();
    assert_eq!(prog, "node");
    assert_eq!(args, vec!["x.js"]);
    assert_eq!(
        launch_plan(&provider("1", "  ", true)).unwrap_err(),
        "Empty command for plugin 'demo'"
    );
    let ps = vec![provider("1", "a", false), provider("2", "b", true)];
    assert!(!is_enabled(&ps, "1"));
    assert!(is_enabled(&ps, "2"));
    assert!(!is_enabled(&ps, "3"));
}

fn finish_err(a: CallAction) -> String {
    match a {
        CallAction::Finish(Err(m)) => m,
        _ => panic!("Expected a failed finish"),
    }
}

#[test]
fn call_spawns_checks_and_sends() {
    let mut st = ProviderState::new();
    let mut attempt = 0u32;
    assert!(matches!(call_start(&st, "p"), CallAction::Spawn));
    assert!(matches!(
        call_step(&mut st, &mut attempt, "p", CallEvent::Spawned),
        CallAction::HealthCheck
    ));
    assert!(matches!(
        call_step(&mut st, &mut attempt, "p", CallEvent::HealthOk(Some("https://x".into()))),
        CallAction::Send
    ));
    match call_step(&mut st, &mut attempt, "p", CallEvent::SendOk("{}".into())) {
        CallAction::Finish(Ok(s)) => assert_eq!(s, "{}"),
        _ => panic!("Expected success"),
    }
    assert_eq!(st.failure_count, 0);
    assert!(st.running);
    assert_eq!(st.get_link().as_deref(), Some("https://x"));
    // the next request goes straight to the running process
    assert!(matches!(call_start(&st, "p"), CallAction::Send));
}

#[test]
fn call_restarts_once_then_gives_up_the_request() {
    let mut st = ProviderState::new();
    st.running = true;
    let mut attempt = 0u32;
    let a = call_step(&mut st, &mut attempt, "p", CallEvent::SendFailed("broken pipe".into()));
    assert!(matches!(a, CallAction::Spawn));
    assert_eq!(attempt, 1);
    assert_eq!(
        st.last_error.as_deref(),
        Some("Plugin 'p' communication error (attempt 1): broken pipe")
    );
    call_step(&mut st, &mut attempt, "p", CallEvent::Spawned);
    call_step(&mut st, &mut attempt, "p", CallEvent::HealthOk(None));
    assert_eq!(st.failure_count, 0);
    let a = call_step(&mut st, &mut attempt, "p", CallEvent::SendFailed("eof".into()));
    assert_eq!(finish_err(a), "Plugin 'p' failed after restart attempt");
    assert_eq!(
        st.last_error.as_deref(),
        Some("Plugin 'p' communication error (attempt 2): eof")
    );
    assert!(!st.errored);
    assert!(st.get_status().healthy);
}

#[test]
fn three_failures_in_a_row_put_the_plugin_in_error() {
    let mut st = ProviderState::new();
    let mut attempt = 0u32;
    call_step(&mut st, &mut attempt, "p", CallEvent::Spawned);
    let a = call_step(&mut st, &mut attempt, "p", CallEvent::HealthFailed("bad info".into()));
    assert!(matches!(a, CallAction::Spawn));
    let a = call_step(&mut st, &mut attempt, "p", CallEvent::SpawnFailed("no such file".into()));
    assert_eq!(finish_err(a), "no such file");
    assert_eq!(st.failure_count, 2);
    let mut attempt = 0u32;
    let a = call_step(&mut st, &mut attempt, "p", CallEvent::SpawnFailed("no such file".into()));
    assert_eq!(finish_err(a), "no such file");
    assert!(st.errored);
    assert_eq!(st.failure_count, 3);
    let status = st.get_status();
    assert!(!status.healthy);
    assert_eq!(status.error.as_deref(), Some("no such file"));
    // a plugin in error answers every request with its last error
    assert_eq!(finish_err(call_start(&st, "p")), "no such file");
    st.last_error = None;
    assert_eq!(finish_err(call_start(&st, "p")), "Plugin 'p' is in error state");
}

#[test]
fn health_failure_message_names_the_plugin() {
    let mut st = ProviderState::new();
    let mut attempt = 1u32;
    call_step(&mut st, &mut attempt, "demo", CallEvent::Spawned);
    let a = call_step(&mut st, &mut attempt, "demo", CallEvent::HealthFailed("timeout".into()));
    assert_eq!(finish_err(a), "Plugin 'demo' failed after restart attempt");
    assert_eq!(
        st.last_error.as_deref(),
        Some("Plugin 'demo' failed health check: timeout")
    );
    assert!(!st.running);
}

#[test]
fn incoming_message_event_detected() {
    assert!(is_incoming_message(r#"{"event":"incoming_message","data":{}}"#));
    assert!(!is_incoming_message(r#"{"event":"status"}"#));
    assert!(!is_incoming_message(r#"{"event":1}"#));
    assert!(!is_incoming_message("not json"));
}
