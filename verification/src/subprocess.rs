//! Plugins run as child processes that speak line-delimited JSON: how their
//! command line is split, how their output lines are read, and the request
//! protocol with its restart and failure policy, as a state machine whose
//! process work (spawning, writing, reading) is done by the caller.
use vstd::prelude::*;
use vstd::string::StringExecFns;

use crate::history::opt_view;
use crate::json::{json_error_text, json_has_key, json_parses, json_str_field, JsonDoc};
use crate::settings::PluginProvider;
use crate::targets::PluginStatus;
use crate::text::{chars_eq, chars_of, string_of, trim, trim_chars};

verus! {

// ---------------------------------------------------------------------------
// Command lines
// ---------------------------------------------------------------------------

/// The words of a command line read from the left, where `cur` is the word
/// read so far and `quoted` whether a `"` is open: a space outside quotes
/// ends a word (empty words are dropped), `"` opens or closes quotes and is
/// dropped, anything else is part of the word.
pub open spec fn command_words(cur: Seq<char>, quoted: bool, s: Seq<char>) -> Seq<Seq<char>>
    decreases s.len(),
{
    if s.len() == 0 {
        if cur.len() > 0 {
            seq![cur]
        } else {
            seq![]
        }
    } else {
        let c = s[0];
        if c == '"' {
            command_words(cur, !quoted, s.drop_first())
        } else if c == ' ' && !quoted {
            if cur.len() > 0 {
                seq![cur] + command_words(seq![], false, s.drop_first())
            } else {
                command_words(cur, false, s.drop_first())
            }
        } else {
            command_words(cur.push(c), quoted, s.drop_first())
        }
    }
}

/// Splits a command line into its program and arguments (see
/// `command_words`); none for a line without words.
pub fn parse_command(command: &str) -> (r: Option<(String, Vec<String>)>)
    ensures
        command_words(seq![], false, command@).len() == 0 <==> r is None,
        r matches Some((prog, args)) ==> {
            let ws = command_words(seq![], false, command@);
            &&& prog@ == ws[0]
            &&& args@.map_values(|a: String| a@) == ws.drop_first()
        },
{
    let v = chars_of(command);
    let mut parts: Vec<Vec<char>> = Vec::new();
    let mut cur: Vec<char> = Vec::new();
    let mut quoted = false;
    let mut i: usize = 0;
    let ghost all = command_words(seq![], false, v@);
    assert(v@.skip(0) =~= v@);
    assert(parts@.map_values(|w: Vec<char>| w@) =~= Seq::<Seq<char>>::empty());
    while i < v.len()
        invariant
            i <= v@.len(),
            all == command_words(seq![], false, v@),
            all == parts@.map_values(|w: Vec<char>| w@) + command_words(
                cur@,
                quoted,
                v@.skip(i as int),
            ),
        decreases v.len() - i,
    {
        let c = v[i];
        assert(v@.skip(i as int)[0] == c);
        assert(v@.skip(i as int).drop_first() =~= v@.skip(i + 1));
        if c == '"' {
            quoted = !quoted;
        } else if c == ' ' && !quoted {
            if cur.len() > 0 {
                let ghost b = parts@.map_values(|w: Vec<char>| w@);
                let ghost w = cur@;
                parts.push(cur);
                cur = Vec::new();
                assert(parts@.map_values(|w: Vec<char>| w@) =~= b.push(w));
                assert(cur@ =~= Seq::<char>::empty());
                assert(b + (seq![w] + command_words(seq![], false, v@.skip(i + 1))) =~= b.push(w)
                    + command_words(seq![], false, v@.skip(i + 1)));
            }
        } else {
            cur.push(c);
        }
        i += 1;
    }
    assert(v@.skip(i as int) =~= Seq::<char>::empty());
    if cur.len() > 0 {
        let ghost b = parts@.map_values(|w: Vec<char>| w@);
        let ghost w = cur@;
        parts.push(cur);
        assert(parts@.map_values(|w: Vec<char>| w@) =~= b.push(w));
    } else {
        assert(parts@.map_values(|w: Vec<char>| w@) + Seq::<Seq<char>>::empty()
            =~= parts@.map_values(|w: Vec<char>| w@));
    }
    assert(all =~= parts@.map_values(|w: Vec<char>| w@));
    if parts.len() == 0 {
        return None;
    }
    let program = string_of(&parts[0]);
    let mut args: Vec<String> = Vec::new();
    let mut k: usize = 1;
    while k < parts.len()
        invariant
            1 <= k <= parts@.len(),
            all == parts@.map_values(|w: Vec<char>| w@),
            args@.map_values(|a: String| a@) == all.subrange(1, k as int),
        decreases parts.len() - k,
    {
        let ghost b = args@.map_values(|a: String| a@);
        args.push(string_of(&parts[k]));
        assert(args@.map_values(|a: String| a@) =~= b.push(all[k as int]));
        assert(all.subrange(1, k + 1) =~= all.subrange(1, k as int).push(all[k as int]));
        k += 1;
    }
    assert(all.subrange(1, k as int) =~= all.drop_first());
    Some((program, args))
}

/// The message of a plugin whose command line has no words.
pub open spec fn empty_command_error(name: Seq<char>) -> Seq<char> {
    "Empty command for plugin '"@ + name + "'"@
}

/// What to launch for a plugin: its program and arguments; an error naming
/// the plugin when its command line has no words.
pub fn launch_plan(config: &PluginProvider) -> (r: Result<(String, Vec<String>), String>)
    ensures
        r is Err <==> command_words(seq![], false, config.command@).len() == 0,
        r matches Err(m) ==> m@ == empty_command_error(config.name@),
        r matches Ok((prog, args)) ==> {
            let ws = command_words(seq![], false, config.command@);
            &&& prog@ == ws[0]
            &&& args@.map_values(|a: String| a@) == ws.drop_first()
        },
{
    match parse_command(config.command.as_str()) {
        Some(pa) => Ok(pa),
        None => {
            proof {
                reveal_strlit("Empty command for plugin '");
                reveal_strlit("'");
            }
            Err(String::from_str("Empty command for plugin '").concat(config.name.as_str()).concat("'"))
        },
    }
}

/// Whether a plugin with the id is configured and enabled.
pub fn is_enabled(plugins: &Vec<PluginProvider>, plugin_id: &str) -> (r: bool)
    ensures
        r == exists|i: int|
            0 <= i < plugins@.len() && (#[trigger] plugins@[i]).id@ == plugin_id@
                && plugins@[i].enabled,
{
    let idv = chars_of(plugin_id);
    let mut i: usize = 0;
    while i < plugins.len()
        invariant
            i <= plugins@.len(),
            idv@ == plugin_id@,
            forall|j: int|
                0 <= j < i ==> !((#[trigger] plugins@[j]).id@ == plugin_id@ && plugins@[j].enabled),
        decreases plugins.len() - i,
    {
        let v = chars_of(plugins[i].id.as_str());
        if chars_eq(&v, &idv) && plugins[i].enabled {
            return true;
        }
        i += 1;
    }
    false
}

// ---------------------------------------------------------------------------
// Output lines
// ---------------------------------------------------------------------------

/// What a line of plugin output is.
pub enum LineKind {
    /// JSON with an `event` field: something the plugin reports by itself.
    Event(JsonDoc),
    /// Any other non-blank line: the answer to the pending request.
    Response(String),
    /// A blank line.
    Empty,
}

/// Classifies a line of plugin output: blank lines are empty; a trimmed line
/// that is JSON with an `event` field is an event; any other trimmed line is
/// a response.
pub fn classify_line(line: &str) -> (r: LineKind)
    ensures
        trim(line@).len() == 0 ==> r is Empty,
        trim(line@).len() > 0 && json_parses(trim(line@)) && json_has_key(trim(line@), "event"@)
            ==> (r matches LineKind::Event(d) && d@ == trim(line@)),
        trim(line@).len() > 0 && !(json_parses(trim(line@)) && json_has_key(
            trim(line@),
            "event"@,
        )) ==> (r matches LineKind::Response(s) && s@ == trim(line@)),
{
    let t = string_of(&trim_chars(&chars_of(line)));
    if t.as_str().is_empty() {
        return LineKind::Empty;
    }
    match JsonDoc::parse(t.as_str()) {
        Some(d) => {
            if d.has_key("event") {
                return LineKind::Event(d);
            }
        },
        None => {},
    }
    LineKind::Response(t)
}

/// What reading one line of plugin output gave.
pub enum ReadOutcome {
    /// The output ended.
    Eof,
    /// Reading failed, with the error's message.
    Failed(String),
    /// A line was read.
    Line(String),
}

/// What to do with what was read.
pub enum ReaderAction {
    /// Nothing: read on.
    Skip,
    /// Forward an event, and read on.
    Event(JsonDoc),
    /// Hand a response to the pending request, and read on.
    Respond(String),
    /// Hand the error to the pending request, and stop reading.
    Stop(String),
}

/// The message of output that ended.
pub open spec fn closed_stdout_error() -> Seq<char> {
    "Plugin closed stdout unexpectedly"@
}

/// What the output reader does with one read: at the end of the output or
/// on a read error it stops with an error for the pending request; a line is
/// skipped, forwarded as an event or handed over as a response (see
/// `classify_line`).
pub fn reader_step(outcome: ReadOutcome) -> (r: ReaderAction)
    ensures
        outcome is Eof ==> (r matches ReaderAction::Stop(m) && m@ == closed_stdout_error()),
        outcome matches ReadOutcome::Failed(e) ==> (r matches ReaderAction::Stop(m) && m@
            == "Read error: "@ + e@),
        outcome matches ReadOutcome::Line(l) ==> {
            let t = trim(l@);
            &&& (t.len() == 0 ==> r is Skip)
            &&& (t.len() > 0 && json_parses(t) && json_has_key(t, "event"@) ==> (r matches ReaderAction::Event(d) && d@ == t))
            &&& (t.len() > 0 && !(json_parses(t) && json_has_key(t, "event"@)) ==> (r matches ReaderAction::Respond(s) && s@ == t))
        },
{
    match outcome {
        ReadOutcome::Eof => {
            proof {
                reveal_strlit("Plugin closed stdout unexpectedly");
            }
            ReaderAction::Stop(String::from_str("Plugin closed stdout unexpectedly"))
        },
        ReadOutcome::Failed(e) => ReaderAction::Stop(String::from_str("Read error: ").concat(e.as_str())),
        ReadOutcome::Line(l) => match classify_line(l.as_str()) {
            LineKind::Empty => ReaderAction::Skip,
            LineKind::Event(d) => ReaderAction::Event(d),
            LineKind::Response(s) => ReaderAction::Respond(s),
        },
    }
}

// ---------------------------------------------------------------------------
// Replies
// ---------------------------------------------------------------------------

/// The message of a failure the plugin gave no reason for.
pub open spec fn unknown_error() -> Seq<char> {
    "Unknown plugin error"@
}

/// The outcome a plugin reports for a send or a configuration: success, or
/// its error (a generic one when it gave none).
pub fn reply_outcome(success: bool, error: Option<String>) -> (r: Result<(), String>)
    ensures
        success ==> r is Ok,
        !success ==> (r matches Err(m) && m@ == (match error {
            Some(e) => e@,
            None => unknown_error(),
        })),
{
    if success {
        Ok(())
    } else {
        match error {
            Some(e) => Err(e),
            None => {
                proof {
                    reveal_strlit("Unknown plugin error");
                }
                Err(String::from_str("Unknown plugin error"))
            },
        }
    }
}

/// The message of a configuration schema reply that is not JSON.
pub open spec fn bad_schema_error(name: Seq<char>, response: Seq<char>) -> Seq<char> {
    "Plugin '"@ + name + "' bad get_config_schema response: "@ + json_error_text(response)
}

/// The message of a configuration schema reply without a schema.
pub open spec fn missing_schema_error(name: Seq<char>) -> Seq<char> {
    "Plugin '"@ + name + "' get_config_schema: missing 'schema' field"@
}

/// A plugin's configuration schema reply: the JSON, when it has a `schema`
/// field; an error naming the plugin when it is not JSON or has none.
pub fn config_schema_reply(name: &str, response: &str) -> (r: Result<JsonDoc, String>)
    ensures
        !json_parses(response@) ==> (r matches Err(m) && m@ == bad_schema_error(name@, response@)),
        json_parses(response@) && json_has_key(response@, "schema"@) ==> (r matches Ok(d) && d@
            == response@),
        json_parses(response@) && !json_has_key(response@, "schema"@) ==> (r matches Err(m) && m@
            == missing_schema_error(name@)),
{
    match JsonDoc::parse_or_message(response) {
        Ok(d) => {
            if d.has_key("schema") {
                Ok(d)
            } else {
                proof {
                    reveal_strlit("Plugin '");
                    reveal_strlit("' get_config_schema: missing 'schema' field");
                }
                Err(
                    String::from_str("Plugin '").concat(name).concat(
                        "' get_config_schema: missing 'schema' field",
                    ),
                )
            }
        },
        Err(e) => {
            proof {
                reveal_strlit("Plugin '");
                reveal_strlit("' bad get_config_schema response: ");
            }
            Err(
                String::from_str("Plugin '").concat(name).concat(
                    "' bad get_config_schema response: ",
                ).concat(e.as_str()),
            )
        },
    }
}

// ---------------------------------------------------------------------------
// The request protocol
// ---------------------------------------------------------------------------

/// After this many failures in a row a plugin is in error and is not tried
/// again.
pub const MAX_FAILURES: u32 = 3;

/// What is known of a plugin between requests.
pub struct ProviderState {
    /// Whether its process is running.
    pub running: bool,
    /// Failures since the last success.
    pub failure_count: u32,
    /// Whether it failed too often and is given up.
    pub errored: bool,
    pub last_error: Option<String>,
    /// The link the plugin gave when it started.
    pub link: Option<String>,
}

/// The failure count stays under the limit while the plugin is not in
/// error, and never passes it.
pub open spec fn state_ok(s: ProviderState) -> bool {
    &&& s.failure_count <= MAX_FAILURES
    &&& (!s.errored ==> s.failure_count < MAX_FAILURES)
}

impl ProviderState {
    /// A plugin not started yet.
    pub fn new() -> (r: Self)
        ensures
            !r.running && r.failure_count == 0 && !r.errored && r.last_error is None && r.link is None,
            state_ok(r),
    {
        ProviderState { running: false, failure_count: 0, errored: false, last_error: None, link: None }
    }

    /// The plugin's health: healthy unless in error, with its last error.
    pub fn get_status(&self) -> (r: PluginStatus)
        ensures
            r.healthy == !self.errored,
            opt_view(r.error) == opt_view(self.last_error),
    {
        PluginStatus { healthy: !self.errored, error: crate::history::copy_opt_string(&self.last_error) }
    }

    /// The link the plugin gave when it started.
    pub fn get_link(&self) -> (r: Option<String>)
        ensures
            opt_view(r) == opt_view(self.link),
    {
        crate::history::copy_opt_string(&self.link)
    }
}

/// What the caller does next for a request.
pub enum CallAction {
    /// Start the plugin's process.
    Spawn,
    /// Ask the fresh process for its info (`get_info`).
    HealthCheck,
    /// Send the request to the running process and read its answer.
    Send,
    /// The request is over, with this outcome.
    Finish(Result<String, String>),
}

/// What the caller's work gave.
pub enum CallEvent {
    /// Starting the process failed, with this message.
    SpawnFailed(String),
    /// The process started.
    Spawned,
    /// The info request failed or its answer was not valid, with this message.
    HealthFailed(String),
    /// The info answer was valid, with the link it gave.
    HealthOk(Option<String>),
    /// The answer to the request.
    SendOk(String),
    /// Sending or reading failed, with this message.
    SendFailed(String),
}

/// The message of a plugin given up without a recorded error.
pub open spec fn error_state_message(name: Seq<char>) -> Seq<char> {
    "Plugin '"@ + name + "' is in error state"@
}

/// The message of a failed info request.
pub open spec fn health_message(name: Seq<char>, e: Seq<char>) -> Seq<char> {
    "Plugin '"@ + name + "' failed health check: "@ + e
}

/// The message of a failed exchange in the given attempt (counted from 0).
pub open spec fn comm_message(name: Seq<char>, attempt: u32, e: Seq<char>) -> Seq<char> {
    "Plugin '"@ + name + "' communication error (attempt "@ + (if attempt == 0 {
        "1"@
    } else {
        "2"@
    }) + "): "@ + e
}

/// The message of a request that failed twice.
pub open spec fn restart_message(name: Seq<char>) -> Seq<char> {
    "Plugin '"@ + name + "' failed after restart attempt"@
}

/// What to do at the start of attempt `attempt` (two attempts are made).
pub open spec fn attempt_action_ok(r: CallAction, running: bool, attempt: u32, name: Seq<char>) -> bool {
    if attempt >= 2 {
        r matches CallAction::Finish(Err(m)) && m@ == restart_message(name)
    } else if running {
        r is Send
    } else {
        r is Spawn
    }
}

/// The action at the start of an attempt.
fn attempt_action(running: bool, attempt: u32, name: &str) -> (r: CallAction)
    ensures
        attempt_action_ok(r, running, attempt, name@),
{
    if attempt >= 2 {
        proof {
            reveal_strlit("Plugin '");
            reveal_strlit("' failed after restart attempt");
        }
        CallAction::Finish(
            Err(String::from_str("Plugin '").concat(name).concat("' failed after restart attempt")),
        )
    } else if running {
        CallAction::Send
    } else {
        CallAction::Spawn
    }
}

/// How a request to a plugin starts: a plugin in error fails at once with
/// its last error (or a message saying it is in error); otherwise the first
/// attempt starts, spawning the process when it is not running.
pub fn call_start(state: &ProviderState, name: &str) -> (r: CallAction)
    ensures
        state.errored ==> (r matches CallAction::Finish(Err(m)) && m@ == (match state.last_error {
            Some(e) => e@,
            None => error_state_message(name@),
        })),
        !state.errored ==> attempt_action_ok(r, state.running, 0, name@),
{
    if state.errored {
        match &state.last_error {
            Some(e) => CallAction::Finish(Err(e.clone())),
            None => {
                proof {
                    reveal_strlit("Plugin '");
                    reveal_strlit("' is in error state");
                }
                CallAction::Finish(
                    Err(String::from_str("Plugin '").concat(name).concat("' is in error state")),
                )
            },
        }
    } else {
        attempt_action(state.running, 0, name)
    }
}

/// A failure: counted, recorded, and the plugin given up at the limit.
pub open spec fn failed(old: ProviderState, new: ProviderState, msg: Seq<char>) -> bool {
    &&& new.failure_count == old.failure_count + 1
    &&& opt_view(new.last_error) == Some(msg)
    &&& new.errored == (new.failure_count >= MAX_FAILURES)
    &&& opt_view(new.link) == opt_view(old.link)
}

/// One step of a request, as `call_step` takes it: from state `s0` in
/// attempt `a0`, the caller's work gave `event`; the step leaves state `s1`,
/// attempt `a1`, and the action `r`.
pub open spec fn step_spec(
    s0: ProviderState,
    a0: u32,
    name: Seq<char>,
    event: CallEvent,
    s1: ProviderState,
    a1: u32,
    r: CallAction,
) -> bool {
    &&& state_ok(s1)
    &&& a1 >= a0
    &&& (r is Spawn || r is HealthCheck || r is Send) ==> a1 < 2
    &&& match event {
        CallEvent::SpawnFailed(e) => {
            &&& failed(s0, s1, e@)
            &&& s1.running == s0.running
            &&& a1 == a0
            &&& r matches CallAction::Finish(Err(m)) && m@ == e@
        },
        CallEvent::Spawned => {
            &&& s1.running
            &&& s1.failure_count == s0.failure_count
            &&& !s1.errored
            &&& opt_view(s1.last_error) == opt_view(s0.last_error)
            &&& opt_view(s1.link) == opt_view(s0.link)
            &&& a1 == a0
            &&& r is HealthCheck
        },
        CallEvent::HealthFailed(e) => {
            let msg = health_message(name, e@);
            &&& failed(s0, s1, msg)
            &&& !s1.running
            &&& s1.errored ==> (a1 == a0 && (r matches CallAction::Finish(Err(m)) && m@ == msg))
            &&& !s1.errored ==> (a1 == a0 + 1 && attempt_action_ok(r, false, a1, name))
        },
        CallEvent::HealthOk(link) => {
            &&& s1.running == s0.running
            &&& s1.failure_count == 0
            &&& !s1.errored
            &&& opt_view(s1.last_error) == opt_view(s0.last_error)
            &&& opt_view(s1.link) == opt_view(link)
            &&& a1 == a0
            &&& r is Send
        },
        CallEvent::SendOk(resp) => {
            &&& s1.running == s0.running
            &&& s1.failure_count == 0
            &&& !s1.errored
            &&& opt_view(s1.last_error) == opt_view(s0.last_error)
            &&& opt_view(s1.link) == opt_view(s0.link)
            &&& a1 == a0
            &&& r matches CallAction::Finish(Ok(s)) && s@ == resp@
        },
        CallEvent::SendFailed(e) => {
            let msg = comm_message(name, a0, e@);
            &&& failed(s0, s1, msg)
            &&& !s1.running
            &&& s1.errored ==> (a1 == a0 && (r matches CallAction::Finish(Err(m)) && m@ == msg))
            &&& !s1.errored ==> (a1 == a0 + 1 && attempt_action_ok(r, false, a1, name))
        },
    }
}

/// One step of a request: the state and attempt after what the caller's work
/// gave, and what to do next. A failed start ends the request; a failed info
/// request or exchange stops the process, and then either gives the plugin
/// up at the failure limit or moves to the next attempt (a restart), the
/// second failure ending the request; a valid info answer or a reply resets
/// the failure count.
pub fn call_step(state: &mut ProviderState, attempt: &mut u32, name: &str, event: CallEvent) -> (r:
    CallAction)
    requires
        !old(state).errored,
        state_ok(*old(state)),
        *old(attempt) < 2,
    ensures
        step_spec(*old(state), *old(attempt), name@, event, *final(state), *final(attempt), r),

{
    match event {
        CallEvent::SpawnFailed(e) => {
            state.failure_count = state.failure_count + 1;
            state.last_error = Some(e.clone());
            if state.failure_count >= MAX_FAILURES {
                state.errored = true;
            }
            CallAction::Finish(Err(e))
        },
        CallEvent::Spawned => {
            state.running = true;
            CallAction::HealthCheck
        },
        CallEvent::HealthFailed(e) => {
            proof {
                reveal_strlit("Plugin '");
                reveal_strlit("' failed health check: ");
            }
            let msg = String::from_str("Plugin '").concat(name).concat("' failed health check: ").concat(
                e.as_str(),
            );
            state.running = false;
            state.failure_count = state.failure_count + 1;
            state.last_error = Some(msg.clone());
            if state.failure_count >= MAX_FAILURES {
                state.errored = true;
                return CallAction::Finish(Err(msg));
            }
            *attempt = *attempt + 1;
            attempt_action(false, *attempt, name)
        },
        CallEvent::HealthOk(link) => {
            state.failure_count = 0;
            state.link = link;
            CallAction::Send
        },
        CallEvent::SendOk(resp) => {
            state.failure_count = 0;
            CallAction::Finish(Ok(resp))
        },
        CallEvent::SendFailed(e) => {
            proof {
                reveal_strlit("Plugin '");
                reveal_strlit("' communication error (attempt ");
                reveal_strlit("1");
                reveal_strlit("2");
                reveal_strlit("): ");
            }
            let nth = if *attempt == 0 {
                "1"
            } else {
                "2"
            };
            let msg = String::from_str("Plugin '").concat(name).concat(
                "' communication error (attempt ",
            ).concat(nth).concat("): ").concat(e.as_str());
            state.running = false;
            state.failure_count = state.failure_count + 1;
            state.last_error = Some(msg.clone());
            if state.failure_count >= MAX_FAILURES {
                state.errored = true;
                return CallAction::Finish(Err(msg));
            }
            *attempt = *attempt + 1;
            attempt_action(false, *attempt, name)
        },
    }
}

/// Whether an event answers an action: a start gives a start result, an
/// info request an info result, a send a send result.
pub open spec fn event_answers(a: CallAction, e: CallEvent) -> bool {
    match a {
        CallAction::Spawn => e is SpawnFailed || e is Spawned,
        CallAction::HealthCheck => e is HealthFailed || e is HealthOk,
        CallAction::Send => e is SendOk || e is SendFailed,
        CallAction::Finish(_) => false,
    }
}

/// A run of one request to a plugin not in error: `call_start` gave
/// `actions[0]`, and each `events[k]` answered `actions[k]` and led, by
/// `call_step`, from `states[k]` and `attempts[k]` to `states[k + 1]`,
/// `attempts[k + 1]` and `actions[k + 1]`.
pub open spec fn request_run(
    name: Seq<char>,
    states: Seq<ProviderState>,
    attempts: Seq<u32>,
    events: Seq<CallEvent>,
    actions: Seq<CallAction>,
) -> bool {
    &&& states.len() == events.len() + 1
    &&& attempts.len() == events.len() + 1
    &&& actions.len() == events.len() + 1
    &&& !states[0].errored
    &&& state_ok(states[0])
    &&& attempts[0] == 0
    &&& attempt_action_ok(actions[0], states[0].running, 0, name)
    &&& forall|k: int|
        0 <= k < events.len() ==> event_answers(actions[k], #[trigger] events[k]) && step_spec(
            states[k],
            attempts[k],
            name,
            events[k],
            states[k + 1],
            attempts[k + 1],
            actions[k + 1],
        )
}

/// How many times the request is written to the plugin.
pub open spec fn sends(actions: Seq<CallAction>) -> nat
    decreases actions.len(),
{
    if actions.len() == 0 {
        0
    } else {
        sends(actions.drop_last()) + if actions.last() is Send {
            1nat
        } else {
            0nat
        }
    }
}

/// How many steps failed.
pub open spec fn failures(events: Seq<CallEvent>) -> nat
    decreases events.len(),
{
    if events.len() == 0 {
        0
    } else {
        failures(events.drop_last()) + if events.last() is SpawnFailed || events.last() is HealthFailed
            || events.last() is SendFailed {
            1nat
        } else {
            0nat
        }
    }
}

/// How many steps succeeded with an answer from the plugin.
pub open spec fn successes(events: Seq<CallEvent>) -> nat
    decreases events.len(),
{
    if events.len() == 0 {
        0
    } else {
        successes(events.drop_last()) + if events.last() is HealthOk || events.last() is SendOk {
            1nat
        } else {
            0nat
        }
    }
}

/// The whole-request law: however the plugin answers, a request is written
/// to it at most twice; without an answer from the plugin every failure adds
/// one to the failure count; the plugin is in error exactly when that count
/// has reached `MAX_FAILURES`, and then the request is over.
pub proof fn lemma_request_run(
    name: Seq<char>,
    states: Seq<ProviderState>,
    attempts: Seq<u32>,
    events: Seq<CallEvent>,
    actions: Seq<CallAction>,
)
    requires
        request_run(name, states, attempts, events, actions),
    ensures
        sends(actions) <= 2,
        sends(actions) <= attempts.last() + (if actions.last() is Send || (actions.last() is Finish
            && attempts.last() < 2) {
            1int
        } else {
            0int
        }),
        attempts.last() <= 2,
        !(actions.last() is Finish) ==> attempts.last() < 2,
        successes(events) == 0 ==> states.last().failure_count == states[0].failure_count
            + failures(events),
        states.last().errored <==> states.last().failure_count >= MAX_FAILURES,
        states.last().errored ==> actions.last() is Finish,
    decreases events.len(),
{
    let n = events.len() as int;
    if n == 0 {
        assert(actions.drop_last().len() == 0);
    } else {
        let ps = states.drop_last();
        let pa = attempts.drop_last();
        let pe = events.drop_last();
        let pc = actions.drop_last();
        assert forall|k: int| 0 <= k < pe.len() implies event_answers(pc[k], #[trigger] pe[k])
            && step_spec(ps[k], pa[k], name, pe[k], ps[k + 1], pa[k + 1], pc[k + 1]) by {
            assert(events[k] == pe[k]);
            assert(event_answers(actions[k], events[k]));
        }
        assert(request_run(name, ps, pa, pe, pc));
        lemma_request_run(name, ps, pa, pe, pc);
        assert(event_answers(actions[n - 1], events[n - 1]));
        assert(step_spec(
            states[n - 1],
            attempts[n - 1],
            name,
            events[n - 1],
            states[n],
            attempts[n],
            actions[n],
        ));
        assert(ps.last() == states[n - 1]);
        assert(pa.last() == attempts[n - 1]);
        assert(pc.last() == actions[n - 1]);
        assert(states.last() == states[n]);
        assert(actions.last() == actions[n]);
        assert(attempts.last() == attempts[n]);
        assert(events.last() == events[n - 1]);
        assert(ps[0] == states[0]);
    }
    let bonus: int = if actions.last() is Send || (actions.last() is Finish && attempts.last() < 2) {
        1int
    } else {
        0int
    };
    if attempts.last() == 2 {
        assert(actions.last() is Finish);
        assert(bonus == 0);
    }
}

// ---------------------------------------------------------------------------
// Plugin events
// ---------------------------------------------------------------------------

/// Whether a plugin event announces an incoming message: its payload is JSON
/// whose `event` field is the string `incoming_message`.
pub open spec fn incoming_message_spec(payload: Seq<char>) -> bool {
    json_parses(payload) && json_str_field(payload, "event"@) == Some("incoming_message"@)
}

/// Whether a plugin event announces an incoming message (see
/// `incoming_message_spec`); such an event brings up the notification window.
pub fn is_incoming_message(payload: &str) -> (r: bool)
    ensures
        r == incoming_message_spec(payload@),
{
    match JsonDoc::parse(payload) {
        Some(d) => match d.str_field("event") {
            Some(e) => {
                let ev = chars_of(e.as_str());
                let want = chars_of("incoming_message");
                chars_eq(&ev, &want)
            },
            None => false,
        },
        None => false,
    }
}

} // verus!
