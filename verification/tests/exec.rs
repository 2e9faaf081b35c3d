use clipygo::exec::{command_matches, exec_match_commands, parse_args, plan_command, ExecCommand};

fn cmd(pattern: &str, path: &str, args: &str) -> ExecCommand {
    ExecCommand {
        id: "1".to_string(),
        name: "test".to_string(),
        enabled: true,
        pattern: pattern.to_string(),
        path: path.to_string(),
        args: args.to_string(),
        working_dir: String::new(),
        pipe_stdin: false,
    }
}

#[test]
fn empty_pattern_always_matches() {
    assert!(command_matches(&cmd("", "x", ""), "anything"));
}

#[test]
fn pattern_matches_clipboard() {
    assert!(command_matches(&cmd(r"^https?://", "x", ""), "https://a.com"));
    assert!(!command_matches(&cmd(r"^https?://", "x", ""), "no url"));
}

#[test]
fn invalid_pattern_never_matches() {
    assert!(!command_matches(&cmd("[invalid", "x", ""), "anything"));
}

#[test]
fn parse_args_splits_on_whitespace() {
    assert_eq!(parse_args("a b  c", ""), vec!["a", "b", "c"]);
}

#[test]
fn parse_args_honors_quotes() {
    assert_eq!(
        parse_args(r#"--msg "hello world" 'a b'"#, ""),
        vec!["--msg", "hello world", "a b"]
    );
}

#[test]
fn parse_args_substitutes_clipboard_placeholder() {
    assert_eq!(
        parse_args("--input {clipboard}", "some text"),
        vec!["--input", "some text"]
    );
}

#[test]
fn parse_args_keeps_substituted_value_as_single_arg() {
    assert_eq!(parse_args("{clipboard}", "a b c"), vec!["a b c"]);
}

#[test]
fn run_command_rejects_empty_path() {
    assert!(plan_command(&cmd("", "  ", ""), "x").is_err());
}

#[test]
fn parse_args_empty_quotes_make_an_empty_argument() {
    assert_eq!(parse_args(r#"a "" b"#, ""), vec!["a", "", "b"]);
}

#[test]
fn plan_command_substitutes_and_pipes() {
    let mut c = cmd("", "/bin/{clipboard}", "-n {clipboard}");
    c.working_dir = "/tmp/{clipboard}".to_string();
    c.pipe_stdin = true;
    let p = plan_command(&c, "echo").unwrap();
    assert_eq!(p.program, "/bin/echo");
    assert_eq!(p.args, vec!["-n", "echo"]);
    assert_eq!(p.working_dir.as_deref(), Some("/tmp/echo"));
    assert_eq!(p.stdin.as_deref(), Some("echo"));
    assert_eq!(
        plan_command(&cmd("", "", ""), "x").unwrap_err(),
        "Command path is empty"
    );
}

#[test]
fn exec_match_commands_reports_each_command() {
    let cmds = vec![cmd("", "a", ""), cmd("^x", "b", ""), cmd("[bad", "c", "")];
    assert_eq!(exec_match_commands(cmds, "xyz".to_string()), vec![true, true, false]);
}

#[test]
fn substituting_after_splitting_keeps_the_argument_count() {
    let line = "--msg '{clipboard}' x{clipboard}y";
    for clip in ["", "a b", "\"q\" 'r'", "{clipboard}"] {
        let direct = parse_args(line, clip);
        let later: Vec<String> = parse_args(line, "{clipboard}")
            .into_iter()
            .map(|a| a.replace("{clipboard}", clip))
            .collect();
        assert_eq!(direct, later);
        assert_eq!(direct.len(), parse_args(line, "").len());
    }
}
