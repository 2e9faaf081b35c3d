//! Send targets offered by plugins, what is sent to them, and the health of
//! the plugins that offer them.
use vstd::prelude::*;
use vstd::string::StringExecFns;

use crate::history::opt_view;
use crate::settings::PluginProvider;
use crate::text::{chars_eq, chars_of};

verus! {

/// A place clipboard content can be sent to.
#[derive(Clone, Debug)]
pub struct Target {
    pub id: String,
    pub provider: String,
    pub formats: Vec<String>,
    pub title: String,
    pub description: String,
    /// A base64-encoded PNG.
    pub image: String,
}

/// Content sent to a target, in one format.
#[derive(Clone, Debug)]
pub struct SendPayload {
    pub content: String,
    pub format: String,
}

/// Whether a plugin works, and its last error.
#[derive(Clone, Debug, Default)]
pub struct PluginStatus {
    pub healthy: bool,
    pub error: Option<String>,
}

/// The status of one configured plugin.
#[derive(Clone, Debug)]
pub struct PluginStatusEntry {
    pub id: String,
    pub name: String,
    pub healthy: bool,
    pub error: Option<String>,
}

/// A plugin that failed to list its targets.
#[derive(Clone, Debug)]
pub struct PluginError {
    pub plugin_name: String,
    pub message: String,
}

/// The targets of all enabled plugins, and the plugins that failed.
#[derive(Clone, Debug)]
pub struct GetTargetsResult {
    pub targets: Vec<Target>,
    pub errors: Vec<PluginError>,
}

/// The position of the first running provider with the name.
pub open spec fn provider_index(ps: Seq<(String, PluginStatus)>, name: Seq<char>) -> Option<int>
    decreases ps.len(),
{
    if ps.len() == 0 {
        None
    } else if ps[0].0@ == name {
        Some(0)
    } else {
        match provider_index(ps.drop_first(), name) {
            Some(i) => Some(i + 1),
            None => None,
        }
    }
}

/// The status entries of the configured plugins that have a running
/// provider (found by name), in the order of the configuration.
pub open spec fn status_entries(
    plugins: Seq<PluginProvider>,
    statuses: Seq<(String, PluginStatus)>,
) -> Seq<(Seq<char>, Seq<char>, bool, Option<Seq<char>>)>
    decreases plugins.len(),
{
    if plugins.len() == 0 {
        seq![]
    } else {
        let p = plugins.last();
        let rest = status_entries(plugins.drop_last(), statuses);
        match provider_index(statuses, p.name@) {
            Some(i) => rest.push(
                (p.id@, p.name@, statuses[i].1.healthy, opt_view(statuses[i].1.error)),
            ),
            None => rest,
        }
    }
}

/// The content of a status entry.
pub open spec fn entry_view(e: PluginStatusEntry) -> (Seq<char>, Seq<char>, bool, Option<Seq<char>>) {
    (e.id@, e.name@, e.healthy, opt_view(e.error))
}

/// The running provider with the name, if any.
fn find_provider(statuses: &Vec<(String, PluginStatus)>, name: &str) -> (r: Option<usize>)
    ensures
        match r {
            Some(i) => provider_index(statuses@, name@) == Some(i as int) && i < statuses@.len(),
            None => provider_index(statuses@, name@) is None,
        },
{
    let nv = chars_of(name);
    let mut i: usize = 0;
    assert(statuses@.skip(0) =~= statuses@);
    while i < statuses.len()
        invariant
            i <= statuses@.len(),
            nv@ == name@,
            provider_index(statuses@, name@) == crate::settings::shifted(
                provider_index(statuses@.skip(i as int), name@),
                i as int,
            ),
        decreases statuses.len() - i,
    {
        assert(statuses@.skip(i as int).drop_first() =~= statuses@.skip(i + 1));
        assert(statuses@.skip(i as int)[0] == statuses@[i as int]);
        let sv = chars_of(statuses[i].0.as_str());
        if chars_eq(&sv, &nv) {
            assert(provider_index(statuses@.skip(i as int), name@) == Some(0int));
            return Some(i);
        }
        i += 1;
    }
    assert(statuses@.skip(i as int) =~= Seq::<(String, PluginStatus)>::empty());
    None
}

/// The health of every configured plugin that has a running provider, given
/// the status of each running provider by name.
pub fn get_plugin_statuses(
    plugins: &Vec<PluginProvider>,
    statuses: &Vec<(String, PluginStatus)>,
) -> (r: Vec<PluginStatusEntry>)
    ensures
        r@.map_values(|e: PluginStatusEntry| entry_view(e)) == status_entries(plugins@, statuses@),
{
    let mut out: Vec<PluginStatusEntry> = Vec::new();
    let mut i: usize = 0;
    while i < plugins.len()
        invariant
            i <= plugins@.len(),
            out@.map_values(|e: PluginStatusEntry| entry_view(e)) == status_entries(
                plugins@.take(i as int),
                statuses@,
            ),
        decreases plugins.len() - i,
    {
        let ghost b = out@.map_values(|e: PluginStatusEntry| entry_view(e));
        assert(plugins@.take(i + 1).drop_last() =~= plugins@.take(i as int));
        assert(plugins@.take(i + 1).last() == plugins@[i as int]);
        let p = &plugins[i];
        match find_provider(statuses, p.name.as_str()) {
            Some(k) => {
                let st = &statuses[k].1;
                let e = PluginStatusEntry {
                    id: p.id.clone(),
                    name: p.name.clone(),
                    healthy: st.healthy,
                    error: crate::history::copy_opt_string(&st.error),
                };
                out.push(e);
                assert(out@.map_values(|e: PluginStatusEntry| entry_view(e)) =~= b.push(
                    (p.id@, p.name@, statuses@[k as int].1.healthy, opt_view(statuses@[k as int].1.error)),
                ));
            },
            None => {},
        }
        i += 1;
    }
    assert(plugins@.take(i as int) =~= plugins@);
    out
}

/// The name of the first configured plugin with the id, under which its
/// provider runs.
pub fn provider_name_for_id(plugins: &Vec<PluginProvider>, plugin_id: &str) -> (r: Option<String>)
    ensures
        match crate::settings::plugin_index(plugins@, plugin_id@) {
            Some(i) => r matches Some(n) && n@ == plugins@[i].name@,
            None => r is None,
        },
{
    let idv = chars_of(plugin_id);
    let mut i: usize = 0;
    proof {
        crate::settings::lemma_plugin_index(plugins@, plugin_id@);
    }
    while i < plugins.len()
        invariant
            i <= plugins@.len(),
            idv@ == plugin_id@,
            forall|j: int| 0 <= j < i ==> (#[trigger] plugins@[j]).id@ != plugin_id@,
        decreases plugins.len() - i,
    {
        let pv = chars_of(plugins[i].id.as_str());
        if chars_eq(&pv, &idv) {
            proof {
                crate::settings::lemma_plugin_index(plugins@, plugin_id@);
                match crate::settings::plugin_index(plugins@, plugin_id@) {
                    Some(k) => {
                        if k < i {
                            assert(plugins@[k].id@ != plugin_id@);
                        }
                        if k > i {
                            assert(plugins@[i as int].id@ != plugin_id@);
                        }
                    },
                    None => {
                        assert(plugins@[i as int].id@ != plugin_id@);
                    },
                }
            }
            return Some(plugins[i].name.clone());
        }
        i += 1;
    }
    proof {
        crate::settings::lemma_plugin_index(plugins@, plugin_id@);
        match crate::settings::plugin_index(plugins@, plugin_id@) {
            Some(k) => {
                assert(plugins@[k].id@ != plugin_id@);
            },
            None => {},
        }
    }
    None
}

/// Whether one of the targets has the id.
pub fn targets_contain(targets: &Vec<Target>, target_id: &str) -> (r: bool)
    ensures
        r == exists|i: int| 0 <= i < targets@.len() && (#[trigger] targets@[i]).id@ == target_id@,
{
    let tv = chars_of(target_id);
    let mut i: usize = 0;
    while i < targets.len()
        invariant
            i <= targets@.len(),
            tv@ == target_id@,
            forall|j: int| 0 <= j < i ==> (#[trigger] targets@[j]).id@ != target_id@,
        decreases targets.len() - i,
    {
        let v = chars_of(targets[i].id.as_str());
        if chars_eq(&v, &tv) {
            return true;
        }
        i += 1;
    }
    false
}

// ---------------------------------------------------------------------------
// Asking the enabled plugins
// ---------------------------------------------------------------------------

/// The names of the enabled plugins, in the order they are configured: the
/// providers that are asked for targets and offered a send.
pub open spec fn enabled_names(plugins: Seq<PluginProvider>) -> Seq<Seq<char>>
    decreases plugins.len(),
{
    if plugins.len() == 0 {
        seq![]
    } else {
        enabled_names(plugins.drop_last()) + if plugins.last().enabled {
            seq![plugins.last().name@]
        } else {
            seq![]
        }
    }
}

/// The providers to ask, by name (see `enabled_names`).
pub fn enabled_provider_names(plugins: &Vec<PluginProvider>) -> (r: Vec<String>)
    ensures
        r@.map_values(|n: String| n@) == enabled_names(plugins@),
{
    let mut out: Vec<String> = Vec::new();
    let mut i: usize = 0;
    while i < plugins.len()
        invariant
            i <= plugins@.len(),
            out@.map_values(|n: String| n@) == enabled_names(plugins@.take(i as int)),
        decreases plugins.len() - i,
    {
        assert(plugins@.take(i + 1).drop_last() =~= plugins@.take(i as int));
        if plugins[i].enabled {
            let n = plugins[i].name.clone();
            out.push(n);
            assert(out@.map_values(|n: String| n@) =~= enabled_names(plugins@.take(i as int)).push(
                plugins@[i as int].name@,
            ));
        }
        i += 1;
    }
    assert(plugins@.take(plugins@.len() as int) =~= plugins@);
    out
}

/// The reply of one provider to a request for its targets: its name and the
/// targets, or its error message.
pub type TargetsReply = (String, Result<Vec<Target>, String>);

/// The targets gathered from the replies, in the order of the replies.
pub open spec fn gathered_targets(replies: Seq<TargetsReply>) -> Seq<Target>
    decreases replies.len(),
{
    if replies.len() == 0 {
        seq![]
    } else {
        gathered_targets(replies.drop_last()) + match replies.last().1 {
            Ok(t) => t@,
            Err(_) => seq![],
        }
    }
}

/// The plugins that failed, by name and message, in the order of the
/// replies.
pub open spec fn gathered_errors(replies: Seq<TargetsReply>) -> Seq<(Seq<char>, Seq<char>)>
    decreases replies.len(),
{
    if replies.len() == 0 {
        seq![]
    } else {
        gathered_errors(replies.drop_last()) + match replies.last().1 {
            Ok(_) => seq![],
            Err(m) => seq![(replies.last().0@, m@)],
        }
    }
}

/// The view of a plugin error: the plugin's name and the message.
pub open spec fn error_view(e: PluginError) -> (Seq<char>, Seq<char>) {
    (e.plugin_name@, e.message@)
}

/// Gathers the replies of the enabled providers: all their targets, and an
/// error for each provider that failed.
pub fn gather_targets(replies: Vec<TargetsReply>) -> (r: GetTargetsResult)
    ensures
        r.targets@ == gathered_targets(replies@),
        r.errors@.map_values(|e: PluginError| error_view(e)) == gathered_errors(replies@),
{
    let ghost all = replies@;
    let mut rest = replies;
    let mut targets: Vec<Target> = Vec::new();
    let mut errors: Vec<PluginError> = Vec::new();
    let ghost mut done: int = 0;
    while rest.len() > 0
        invariant
            0 <= done <= all.len(),
            rest@ == all.skip(done),
            targets@ == gathered_targets(all.take(done)),
            errors@.map_values(|e: PluginError| error_view(e)) == gathered_errors(all.take(done)),
        decreases rest.len(),
    {
        let (name, reply) = rest.remove(0);
        proof {
            assert(all.take(done + 1).drop_last() =~= all.take(done));
            assert(all.take(done + 1).last() == all[done]);
            assert(all.skip(done)[0] == all[done]);
            assert(all.skip(done).remove(0) =~= all.skip(done + 1));
        }
        match reply {
            Ok(t) => {
                let mut t = t;
                targets.append(&mut t);
            },
            Err(message) => {
                errors.push(PluginError { plugin_name: name, message });
                assert(errors@.map_values(|e: PluginError| error_view(e)) =~= gathered_errors(
                    all.take(done),
                ).push(error_view(errors@.last())));
            },
        }
        proof {
            done = done + 1;
        }
    }
    assert(all.take(done) =~= all);
    GetTargetsResult { targets, errors }
}

/// The message of a target that no enabled plugin offers.
pub open spec fn target_not_found(target_id: Seq<char>) -> Seq<char> {
    "Target '"@ + target_id + "' not found"@
}

/// The message of a failed send.
pub open spec fn send_failed(message: Seq<char>) -> Seq<char> {
    "Failed to send to target: "@ + message
}

/// Whether a provider whose target list came back as `reply` is the one to
/// send to: it listed the target. The providers are tried in order and the
/// first one that lists the target gets the payload.
pub fn offers_target(reply: &Result<Vec<Target>, String>, target_id: &str) -> (r: bool)
    ensures
        r == (reply matches Ok(t) && exists|i: int|
            0 <= i < t@.len() && (#[trigger] t@[i]).id@ == target_id@),
{
    match reply {
        Ok(t) => targets_contain(t, target_id),
        Err(_) => false,
    }
}

/// Whether a target-list reply lists the target.
pub open spec fn reply_offers(reply: Result<Vec<Target>, String>, target_id: Seq<char>) -> bool {
    reply matches Ok(t) && exists|i: int| 0 <= i < t@.len() && (#[trigger] t@[i]).id@ == target_id
}

/// Which provider gets the payload: the first, in the order asked, whose
/// target list lists the target.
pub fn first_offering(replies: &Vec<Result<Vec<Target>, String>>, target_id: &str) -> (r: Option<
    usize,
>)
    ensures
        match r {
            Some(i) => i < replies@.len() && reply_offers(replies@[i as int], target_id@) && forall|
                j: int,
            | 0 <= j < i ==> !reply_offers(#[trigger] replies@[j], target_id@),
            None => forall|j: int|
                0 <= j < replies@.len() ==> !reply_offers(#[trigger] replies@[j], target_id@),
        },
{
    let mut i: usize = 0;
    while i < replies.len()
        invariant
            i <= replies@.len(),
            forall|j: int| 0 <= j < i ==> !reply_offers(#[trigger] replies@[j], target_id@),
        decreases replies.len() - i,
    {
        if offers_target(&replies[i], target_id) {
            return Some(i);
        }
        i += 1;
    }
    None
}

/// The answer to a send: the provider's own answer when one listed the
/// target (a failure prefixed as such), else that no enabled plugin offers
/// the target.
pub fn send_outcome(target_id: &str, sent: Option<Result<(), String>>) -> (r: Result<(), String>)
    ensures
        sent matches Some(Ok(())) ==> r is Ok,
        sent matches Some(Err(m)) ==> (r matches Err(e) && e@ == send_failed(m@)),
        sent is None ==> (r matches Err(e) && e@ == target_not_found(target_id@)),
{
    proof {
        reveal_strlit("Failed to send to target: ");
        reveal_strlit("Target '");
        reveal_strlit("' not found");
    }
    match sent {
        Some(Ok(())) => Ok(()),
        Some(Err(m)) => Err(String::from_str("Failed to send to target: ").concat(m.as_str())),
        None => Err(String::from_str("Target '").concat(target_id).concat("' not found")),
    }
}

} // verus!
