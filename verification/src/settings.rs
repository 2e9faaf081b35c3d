//! Application settings: their defaults, the list of plugins and how it is
//! managed, and what installing or updating a plugin from the registry
//! decides.
use vstd::prelude::*;
use vstd::string::StringExecFns;

use sha2::{Digest, Sha256};

use crate::history::{lemma_filter_step, opt_view, strings_view};
use crate::text::{
    char_is_whitespace, chars_of, find_char_from, find_char_from_exec, is_whitespace,
    slice_chars, string_of, trim, trim_chars,
};

verus! {

// ---------------------------------------------------------------------------
// The settings
// ---------------------------------------------------------------------------

/// Settings of the Microsoft Teams target.
#[derive(Clone, Debug, Default)]
pub struct MsTeamsSettings {
    pub enabled: bool,
}

/// A plugin: a program that the app talks to over its standard input and
/// output.
#[derive(Clone, Debug)]
pub struct PluginProvider {
    pub id: String,
    pub name: String,
    /// The full command line, e.g. `node plugin.js`.
    pub command: String,
    pub enabled: bool,
    /// The registry entry it was installed from, if any.
    pub registry_id: Option<String>,
    /// The registry version installed, if any.
    pub version: Option<String>,
}

/// The settings of all target providers.
#[derive(Clone, Debug, Default)]
pub struct TargetProviderSettings {
    pub msteams: MsTeamsSettings,
    pub plugins: Vec<PluginProvider>,
}

/// The application's settings.
#[derive(Clone, Debug)]
pub struct AppSettings {
    pub autostart: bool,
    pub global_shortcut: String,
    pub regex_list: Vec<String>,
    pub target_providers: TargetProviderSettings,
    pub registry_url: String,
}

/// Where the plugin registry is fetched from unless configured otherwise.
pub const DEFAULT_REGISTRY_URL: &'static str =
    "https://raw.githubusercontent.com/it-atelier-gn/clipygo-plugins/main/registry.json";

/// The meeting-link patterns watched by default: JetBrains Code With Me,
/// Zoom, Google Meet and Microsoft Teams.
pub open spec fn default_patterns() -> Seq<Seq<char>> {
    seq![
        "https://code-with-me\\.jetbrains\\.com/[a-zA-Z0-9\\-_]+"@,
        "https://[a-z0-9\\-]+\\.zoom\\.us/j/[0-9]+"@,
        "https://meet\\.google\\.com/[a-z]{3}-[a-z]{4}-[a-z]{3}"@,
        "https://teams\\.microsoft\\.com/l/meetup-join/[^\\s]+"@,
    ]
}

/// The default registry address.
pub fn default_registry_url() -> (r: String)
    ensures
        r@ == DEFAULT_REGISTRY_URL@,
{
    String::from_str(DEFAULT_REGISTRY_URL)
}

impl Default for AppSettings {
    /// Autostart on, `Ctrl+F10`, the default patterns, no plugins, Teams off,
    /// the default registry.
    fn default() -> (r: Self)
        ensures
            r.autostart,
            r.global_shortcut@ == "Ctrl+F10"@,
            strings_view(r.regex_list@) == default_patterns(),
            r.target_providers.plugins@.len() == 0,
            !r.target_providers.msteams.enabled,
            r.registry_url@ == DEFAULT_REGISTRY_URL@,
    {
        let mut regex_list: Vec<String> = Vec::new();
        regex_list.push(
            String::from_str("https://code-with-me\\.jetbrains\\.com/[a-zA-Z0-9\\-_]+"),
        );
        regex_list.push(String::from_str("https://[a-z0-9\\-]+\\.zoom\\.us/j/[0-9]+"));
        regex_list.push(
            String::from_str("https://meet\\.google\\.com/[a-z]{3}-[a-z]{4}-[a-z]{3}"),
        );
        regex_list.push(String::from_str("https://teams\\.microsoft\\.com/l/meetup-join/[^\\s]+"));
        assert(strings_view(regex_list@) =~= default_patterns());
        AppSettings {
            autostart: true,
            global_shortcut: String::from_str("Ctrl+F10"),
            regex_list,
            target_providers: TargetProviderSettings {
                msteams: MsTeamsSettings { enabled: false },
                plugins: Vec::new(),
            },
            registry_url: default_registry_url(),
        }
    }
}

// ---------------------------------------------------------------------------
// The program of a command line
// ---------------------------------------------------------------------------

/// The position of the first whitespace character of `s` at or after `i`, or
/// the length of `s`.
pub open spec fn word_end(s: Seq<char>, i: int) -> int
    decreases s.len() - i,
{
    if i < 0 || i >= s.len() || char_is_whitespace(s[i]) {
        i
    } else {
        word_end(s, i + 1)
    }
}

/// The program a command line names: after trimming, the text between a
/// leading `"` and the next `"` (or the end), else the first
/// whitespace-separated word; empty for a blank line.
pub open spec fn extract_program_spec(command: Seq<char>) -> Seq<char> {
    let t = trim(command);
    if t.len() > 0 && t[0] == '"' {
        let rest = t.drop_first();
        match find_char_from(rest, '"', 0) {
            Some(i) => rest.take(i),
            None => rest,
        }
    } else {
        t.take(word_end(t, 0))
    }
}

/// The program a command line names (see `extract_program_spec`).
pub fn extract_program(command: &str) -> (r: String)
    ensures
        r@ == extract_program_spec(command@),
{
    let t = trim_chars(&chars_of(command));
    if t.len() > 0 && t[0] == '"' {
        let rest = slice_chars(&t, 1, t.len());
        assert(rest@ =~= t@.drop_first());
        match find_char_from_exec(&rest, '"', 0) {
            Some(i) => {
                let p = slice_chars(&rest, 0, i);
                assert(p@ =~= rest@.take(i as int));
                string_of(&p)
            },
            None => string_of(&rest),
        }
    } else {
        let mut i: usize = 0;
        while i < t.len() && !is_whitespace(t[i])
            invariant
                i <= t@.len(),
                word_end(t@, 0) == word_end(t@, i as int),
            decreases t.len() - i,
        {
            i += 1;
        }
        let p = slice_chars(&t, 0, i);
        assert(p@ =~= t@.take(i as int));
        string_of(&p)
    }
}

// ---------------------------------------------------------------------------
// Managing the plugin list
// ---------------------------------------------------------------------------

/// Two settings agree on everything but the plugin list.
pub open spec fn same_but_plugins(a: AppSettings, b: AppSettings) -> bool {
    &&& a.autostart == b.autostart
    &&& a.global_shortcut@ == b.global_shortcut@
    &&& strings_view(a.regex_list@) == strings_view(b.regex_list@)
    &&& a.target_providers.msteams == b.target_providers.msteams
    &&& a.registry_url@ == b.registry_url@
}

/// The position of the first plugin with the id.
pub open spec fn plugin_index(ps: Seq<PluginProvider>, id: Seq<char>) -> Option<int>
    decreases ps.len(),
{
    if ps.len() == 0 {
        None
    } else if ps[0].id@ == id {
        Some(0)
    } else {
        match plugin_index(ps.drop_first(), id) {
            Some(i) => Some(i + 1),
            None => None,
        }
    }
}

/// The first plugin with the id, if any.
fn find_plugin(ps: &Vec<PluginProvider>, id: &str) -> (r: Option<usize>)
    ensures
        match r {
            Some(i) => plugin_index(ps@, id@) == Some(i as int) && i < ps@.len(),
            None => plugin_index(ps@, id@) is None,
        },
{
    proof {
        lemma_plugin_index(ps@, id@);
    }
    let idv = chars_of(id);
    let mut i: usize = 0;
    while i < ps.len()
        invariant
            i <= ps@.len(),
            idv@ == id@,
            forall|j: int| 0 <= j < i ==> (#[trigger] ps@[j]).id@ != id@,
        decreases ps.len() - i,
    {
        let pv = chars_of(ps[i].id.as_str());
        if crate::text::chars_eq(&pv, &idv) {
            proof {
                lemma_plugin_index(ps@, id@);
                match plugin_index(ps@, id@) {
                    Some(k) => {
                        if k < i {
                            assert(ps@[k].id@ != id@);
                        }
                        if k > i {
                            assert(ps@[i as int].id@ != id@);
                        }
                    },
                    None => {
                        assert(ps@[i as int].id@ != id@);
                    },
                }
            }
            return Some(i);
        }
        i += 1;
    }
    proof {
        lemma_plugin_index(ps@, id@);
        match plugin_index(ps@, id@) {
            Some(k) => {
                assert(ps@[k].id@ != id@);
            },
            None => {},
        }
    }
    None
}

/// The first plugin with the id has it, and no plugin before it has.
pub proof fn lemma_plugin_index(ps: Seq<PluginProvider>, id: Seq<char>)
    ensures
        match plugin_index(ps, id) {
            Some(i) => 0 <= i < ps.len() && ps[i].id@ == id && forall|j: int|
                0 <= j < i ==> (#[trigger] ps[j]).id@ != id,
            None => forall|j: int| 0 <= j < ps.len() ==> (#[trigger] ps[j]).id@ != id,
        },
    decreases ps.len(),
{
    if ps.len() > 0 {
        lemma_plugin_index(ps.drop_first(), id);
        if ps[0].id@ != id {
            assert forall|j: int| 0 < j < ps.len() implies ps[j] == ps.drop_first()[j - 1] by {}
        }
    }
}

/// The message of a command that is already configured.
pub open spec fn duplicate_command_error() -> Seq<char> {
    "Plugin with this command already exists"@
}

/// The message of an id that no plugin has.
pub open spec fn plugin_not_found_error() -> Seq<char> {
    "Plugin not found"@
}

/// Whether some plugin runs the command line.
pub open spec fn has_command(ps: Seq<PluginProvider>, command: Seq<char>) -> bool {
    exists|i: int| 0 <= i < ps.len() && (#[trigger] ps[i]).command@ == command
}

/// A new random plugin id (`uuid::Uuid::new_v4` in its hyphenated text
/// form); nothing is known of it, not even that no plugin has it yet.
#[verifier::external_body]
fn new_plugin_id() -> (r: String) {
    uuid::Uuid::new_v4().to_string()
}

/// Adds a plugin running `command` under `name`, enabled, with a new random
/// id, and returns the id; refused when a plugin already runs that command line.
pub fn add_plugin(settings: &mut AppSettings, command: String, name: String) -> (r: Result<
    String,
    String,
>)
    ensures
        same_but_plugins(*old(settings), *final(settings)),
        has_command(old(settings).target_providers.plugins@, command@) ==> (r matches Err(m)
            && m@ == duplicate_command_error() && final(settings).target_providers.plugins@
            == old(settings).target_providers.plugins@),
        !has_command(old(settings).target_providers.plugins@, command@) ==> (r matches Ok(id) && {
            let o = old(settings).target_providers.plugins@;
            let n = final(settings).target_providers.plugins@;
            &&& n.len() == o.len() + 1
            &&& n.take(o.len() as int) == o
            &&& n[o.len() as int].id@ == id@
            &&& n[o.len() as int].name@ == name@
            &&& n[o.len() as int].command@ == command@
            &&& n[o.len() as int].enabled
            &&& n[o.len() as int].registry_id is None
            &&& n[o.len() as int].version is None
        }),
{
    let cv = chars_of(command.as_str());
    let mut i: usize = 0;
    while i < settings.target_providers.plugins.len()
        invariant
            i <= settings.target_providers.plugins@.len(),
            cv@ == command@,
            forall|j: int|
                0 <= j < i ==> (#[trigger] settings.target_providers.plugins@[j]).command@
                    != command@,
        decreases settings.target_providers.plugins@.len() - i,
    {
        let pc = chars_of(settings.target_providers.plugins[i].command.as_str());
        if crate::text::chars_eq(&pc, &cv) {
            proof {
                reveal_strlit("Plugin with this command already exists");
            }
            return Err(String::from_str("Plugin with this command already exists"));
        }
        i += 1;
    }
    let id = new_plugin_id();
    let ghost o = settings.target_providers.plugins@;
    settings.target_providers.plugins.push(
        PluginProvider {
            id: id.clone(),
            name,
            command,
            enabled: true,
            registry_id: None,
            version: None,
        },
    );
    assert(settings.target_providers.plugins@.take(o.len() as int) =~= o);
    Ok(id)
}

/// Removes every plugin with the id.
pub fn remove_plugin(settings: &mut AppSettings, plugin_id: &str) -> (r: Result<(), String>)
    ensures
        r is Ok,
        same_but_plugins(*old(settings), *final(settings)),
        final(settings).target_providers.plugins@ == old(
            settings,
        ).target_providers.plugins@.filter(|p: PluginProvider| p.id@ != plugin_id@),
{
    let mut list: Vec<PluginProvider> = Vec::new();
    std::mem::swap(&mut list, &mut settings.target_providers.plugins);
    let ghost orig = list@;
    let ghost pred = |p: PluginProvider| p.id@ != plugin_id@;
    assert(orig.len() == list.len());
    let idv = chars_of(plugin_id);
    let mut kept: Vec<PluginProvider> = Vec::new();
    let mut i: usize = 0;
    assert(orig.take(0).filter(pred) =~= Seq::<PluginProvider>::empty()) by {
        reveal(Seq::filter);
    }
    assert(orig.skip(0) =~= orig);
    while list.len() > 0
        invariant
            i <= orig.len(),
            orig.len() <= usize::MAX,
            list@ == orig.skip(i as int),
            idv@ == plugin_id@,
            pred == |p: PluginProvider| p.id@ != plugin_id@,
            kept@ == orig.take(i as int).filter(pred),
        decreases list.len(),
    {
        let p = list.remove(0);
        assert(p == orig[i as int]);
        assert(orig.skip(i as int).drop_first() =~= orig.skip(i + 1));
        proof {
            lemma_filter_step(orig, pred, i as int);
        }
        let pv = chars_of(p.id.as_str());
        if !crate::text::chars_eq(&pv, &idv) {
            kept.push(p);
        }
        i += 1;
    }
    assert(orig.take(i as int) =~= orig);
    settings.target_providers.plugins = kept;
    Ok(())
}

/// Renames the first plugin with the id and sets its command line; an error
/// when no plugin has the id.
pub fn update_plugin(settings: &mut AppSettings, plugin_id: &str, name: String, command: String) -> (r:
    Result<(), String>)
    ensures
        same_but_plugins(*old(settings), *final(settings)),
        match plugin_index(old(settings).target_providers.plugins@, plugin_id@) {
            None => r matches Err(m) && m@ == plugin_not_found_error()
                && final(settings).target_providers.plugins@ == old(
                settings,
            ).target_providers.plugins@,
            Some(i) => r is Ok && {
                let o = old(settings).target_providers.plugins@;
                let n = final(settings).target_providers.plugins@;
                &&& n.len() == o.len()
                &&& forall|j: int| 0 <= j < o.len() && j != i ==> n[j] == o[j]
                &&& n[i].name@ == name@
                &&& n[i].command@ == command@
                &&& n[i].id == o[i].id
                &&& n[i].enabled == o[i].enabled
                &&& n[i].registry_id == o[i].registry_id
                &&& n[i].version == o[i].version
            },
        },
{
    match find_plugin(&settings.target_providers.plugins, plugin_id) {
        Some(i) => {
            let ghost o = settings.target_providers.plugins@;
            let mut p = settings.target_providers.plugins.remove(i);
            p.name = name;
            p.command = command;
            settings.target_providers.plugins.insert(i, p);
            assert forall|j: int| 0 <= j < o.len() && j != i implies settings.target_providers.plugins@[j]
                == o[j] by {}
            Ok(())
        },
        None => {
            proof {
                reveal_strlit("Plugin not found");
            }
            Err(String::from_str("Plugin not found"))
        },
    }
}

/// Enables or disables the first plugin with the id; an error when no plugin
/// has the id.
pub fn toggle_plugin(settings: &mut AppSettings, plugin_id: &str, enabled: bool) -> (r: Result<
    (),
    String,
>)
    ensures
        same_but_plugins(*old(settings), *final(settings)),
        match plugin_index(old(settings).target_providers.plugins@, plugin_id@) {
            None => r matches Err(m) && m@ == plugin_not_found_error()
                && final(settings).target_providers.plugins@ == old(
                settings,
            ).target_providers.plugins@,
            Some(i) => r is Ok && {
                let o = old(settings).target_providers.plugins@;
                let n = final(settings).target_providers.plugins@;
                &&& n.len() == o.len()
                &&& forall|j: int| 0 <= j < o.len() && j != i ==> n[j] == o[j]
                &&& n[i].enabled == enabled
                &&& n[i].id == o[i].id
                &&& n[i].name == o[i].name
                &&& n[i].command == o[i].command
                &&& n[i].registry_id == o[i].registry_id
                &&& n[i].version == o[i].version
            },
        },
{
    match find_plugin(&settings.target_providers.plugins, plugin_id) {
        Some(i) => {
            let ghost o = settings.target_providers.plugins@;
            let mut p = settings.target_providers.plugins.remove(i);
            p.enabled = enabled;
            settings.target_providers.plugins.insert(i, p);
            assert forall|j: int| 0 <= j < o.len() && j != i implies settings.target_providers.plugins@[j]
                == o[j] by {}
            Ok(())
        },
        None => {
            proof {
                reveal_strlit("Plugin not found");
            }
            Err(String::from_str("Plugin not found"))
        },
    }
}


// ---------------------------------------------------------------------------
// The plugin registry
// ---------------------------------------------------------------------------

/// Where a plugin binary for one platform is downloaded from, and its
/// SHA-256 (lower-case hex; empty when the registry gives none).
#[derive(Clone, Debug)]
pub struct RegistryPlatform {
    pub url: String,
    pub sha256: String,
}

/// A plugin offered by the registry, with a binary per platform key.
#[derive(Clone, Debug)]
pub struct RegistryPlugin {
    pub id: String,
    pub name: String,
    pub description: String,
    pub author: String,
    pub version: String,
    pub repo: String,
    /// The binaries by platform key. Read from a JSON object, each key
    /// occurs once (`platform_keys_unique`); a lookup takes the first entry
    /// with the key (`lemma_platform_index`).
    pub platforms: Vec<(String, RegistryPlatform)>,
}

/// The registry.
#[derive(Clone, Debug)]
pub struct Registry {
    pub version: u32,
    pub plugins: Vec<RegistryPlugin>,
}

/// The position of the binary for a platform key.
pub open spec fn platform_index(ps: Seq<(String, RegistryPlatform)>, key: Seq<char>) -> Option<int>
    decreases ps.len(),
{
    if ps.len() == 0 {
        None
    } else if ps[0].0@ == key {
        Some(0)
    } else {
        match platform_index(ps.drop_first(), key) {
            Some(i) => Some(i + 1),
            None => None,
        }
    }
}

/// Each platform key occurs at most once (as in the registry's JSON object).
pub open spec fn platform_keys_unique(ps: Seq<(String, RegistryPlatform)>) -> bool {
    forall|i: int, j: int| 0 <= i < j < ps.len() ==> (#[trigger] ps[i]).0@ != (#[trigger] ps[j]).0@
}

/// The lookup by platform key finds the first entry with the key, and none
/// when no entry has it; where keys are unique, that entry is the only one
/// with the key.
pub proof fn lemma_platform_index(ps: Seq<(String, RegistryPlatform)>, key: Seq<char>)
    ensures
        match platform_index(ps, key) {
            Some(i) => 0 <= i < ps.len() && ps[i].0@ == key && (forall|j: int|
                0 <= j < i ==> (#[trigger] ps[j]).0@ != key) && (platform_keys_unique(ps) ==> forall|
                j: int,
            | 0 <= j < ps.len() && j != i ==> (#[trigger] ps[j]).0@ != key),
            None => forall|j: int| 0 <= j < ps.len() ==> (#[trigger] ps[j]).0@ != key,
        },
    decreases ps.len(),
{
    if ps.len() > 0 {
        let t = ps.drop_first();
        lemma_platform_index(t, key);
        assert forall|j: int| 0 <= j < t.len() implies #[trigger] t[j] == ps[j + 1] by {}
        if ps[0].0@ != key {
            match platform_index(t, key) {
                Some(i) => {
                    assert forall|j: int| 0 <= j < i + 1 implies (#[trigger] ps[j]).0@ != key by {
                        if j > 0 {
                            assert(ps[j] == t[j - 1]);
                        }
                    }
                    if platform_keys_unique(ps) {
                        assert(platform_keys_unique(t)) by {
                            assert forall|a: int, b: int| 0 <= a < b < t.len() implies (
                            #[trigger] t[a]).0@ != (#[trigger] t[b]).0@ by {
                                assert(t[a] == ps[a + 1] && t[b] == ps[b + 1]);
                            }
                        }
                        assert forall|j: int| 0 <= j < ps.len() && j != i + 1 implies (
                        #[trigger] ps[j]).0@ != key by {
                            if j > 0 {
                                assert(ps[j] == t[j - 1]);
                            }
                        }
                    }
                },
                None => {
                    assert forall|j: int| 0 <= j < ps.len() implies (#[trigger] ps[j]).0@ != key by {
                        if j > 0 {
                            assert(ps[j] == t[j - 1]);
                        }
                    }
                },
            }
        } else {
            if platform_keys_unique(ps) {
                assert forall|j: int| 0 <= j < ps.len() && j != 0 implies (#[trigger] ps[j]).0@
                    != key by {
                    assert(ps[0].0@ != ps[j].0@);
                }
            }
        }
    }
}

/// The message of a platform the plugin has no binary for.
pub open spec fn no_binary_error(key: Seq<char>) -> Seq<char> {
    "No binary for platform '"@ + key + "'"@
}

/// The binary of a registry plugin for a platform key; an error when it has
/// none.
pub fn platform_for(plugin: &RegistryPlugin, platform_key: &str) -> (r: Result<
    RegistryPlatform,
    String,
>)
    ensures
        match platform_index(plugin.platforms@, platform_key@) {
            Some(i) => r matches Ok(p) && p.url@ == plugin.platforms@[i].1.url@ && p.sha256@
                == plugin.platforms@[i].1.sha256@,
            None => r matches Err(m) && m@ == no_binary_error(platform_key@),
        },
{
    let kv = chars_of(platform_key);
    let ps = &plugin.platforms;
    let mut i: usize = 0;
    assert(ps@.skip(0) =~= ps@);
    assert(shifted(platform_index(ps@, platform_key@), 0) == platform_index(ps@, platform_key@));
    while i < ps.len()
        invariant
            i <= ps@.len(),
            kv@ == platform_key@,
            ps@ == plugin.platforms@,
            platform_index(ps@, platform_key@) == shifted(platform_index(ps@.skip(i as int), platform_key@), i as int),
        decreases ps.len() - i,
    {
        assert(ps@.skip(i as int).drop_first() =~= ps@.skip(i + 1));
        assert(ps@.skip(i as int)[0] == ps@[i as int]);
        let pk = chars_of(ps[i].0.as_str());
        if crate::text::chars_eq(&pk, &kv) {
            assert(ps@.skip(i as int)[0].0@ == platform_key@);
            assert(platform_index(ps@.skip(i as int), platform_key@) == Some(0int));
            let p = &ps[i].1;
            return Ok(RegistryPlatform { url: p.url.clone(), sha256: p.sha256.clone() });
        }
        i += 1;
    }
    assert(ps@.skip(i as int) =~= Seq::<(String, RegistryPlatform)>::empty());
    proof {
        reveal_strlit("No binary for platform '");
        reveal_strlit("'");
    }
    let m = String::from_str("No binary for platform '").concat(platform_key).concat("'");
    Err(m)
}

/// The file name a plugin binary is saved under: `<id>-<platform>`, with
/// `.exe` for a platform key starting with `windows`.
pub open spec fn binary_name_spec(plugin_id: Seq<char>, platform_key: Seq<char>) -> Seq<char> {
    plugin_id + "-"@ + platform_key + (if crate::text::starts_with(platform_key, "windows"@) {
        ".exe"@
    } else {
        ""@
    })
}

/// The file name a plugin binary is saved under (see `binary_name_spec`).
pub fn plugin_binary_name(plugin_id: &str, platform_key: &str) -> (r: String)
    ensures
        r@ == binary_name_spec(plugin_id@, platform_key@),
{
    let kv = chars_of(platform_key);
    let w = chars_of("windows");
    let windows = crate::text::starts_with_exec(&kv, &w);
    let ext = if windows {
        ".exe"
    } else {
        ""
    };
    String::from_str(plugin_id).concat("-").concat(platform_key).concat(ext)
}

/// The SHA-256 digest of some bytes.
pub uninterp spec fn sha256_digest(bytes: Seq<u8>) -> Seq<u8>;

/// `sha2::Sha256::digest`: the 32-byte digest of the bytes.
#[verifier::external_body]
fn sha256(bytes: &[u8]) -> (r: Vec<u8>)
    ensures
        r@ == sha256_digest(bytes@),
        r@.len() == 32,
{
    Sha256::digest(bytes).to_vec()
}

/// The lower-case hexadecimal digit of a value below 16.
pub open spec fn hex_digit_lower(v: u8) -> char {
    if v < 10 {
        (48 + v) as char
    } else {
        (87 + v) as char
    }
}

/// Bytes in lower-case hexadecimal, two digits each.
pub open spec fn lower_hex(b: Seq<u8>) -> Seq<char>
    decreases b.len(),
{
    if b.len() == 0 {
        seq![]
    } else {
        lower_hex(b.drop_last()) + seq![hex_digit_lower(b.last() / 16), hex_digit_lower(b.last() % 16)]
    }
}

/// Bytes in lower-case hexadecimal (see `lower_hex`).
pub fn lower_hex_exec(b: &[u8]) -> (r: String)
    ensures
        r@ == lower_hex(b@),
{
    let mut out: Vec<char> = Vec::new();
    let mut i: usize = 0;
    while i < b.len()
        invariant
            i <= b@.len(),
            out@ == lower_hex(b@.take(i as int)),
        decreases b.len() - i,
    {
        assert(b@.take(i + 1).drop_last() =~= b@.take(i as int));
        let v = b[i];
        let hi = v / 16;
        let lo = v % 16;
        out.push(if hi < 10 {
            (48 + hi) as char
        } else {
            (87 + hi) as char
        });
        out.push(if lo < 10 {
            (48 + lo) as char
        } else {
            (87 + lo) as char
        });
        i += 1;
    }
    assert(b@.take(i as int) =~= b@);
    string_of(&out)
}

/// The message of a download whose digest differs from the registry's.
pub open spec fn sha_mismatch_error(plugin_id: Seq<char>, expected: Seq<char>, got: Seq<char>) -> Seq<
    char,
> {
    "SHA256 mismatch for '"@ + plugin_id + "': expected "@ + expected + ", got "@ + got
}

/// Checks a downloaded binary against the registry's SHA-256: nothing to
/// check when the registry gives none; otherwise the lower-case hex digest
/// must equal it.
pub fn verify_download(plugin_id: &str, expected: &str, bytes: &[u8]) -> (r: Result<(), String>)
    ensures
        expected@.len() == 0 ==> r is Ok,
        expected@.len() > 0 ==> (r is Ok <==> lower_hex(sha256_digest(bytes@)) == expected@),
        r matches Err(m) ==> m@ == sha_mismatch_error(
            plugin_id@,
            expected@,
            lower_hex(sha256_digest(bytes@)),
        ),
{
    let ev = chars_of(expected);
    if ev.len() == 0 {
        return Ok(());
    }
    let digest = sha256(bytes);
    let hex = lower_hex_exec(digest.as_slice());
    let hv = chars_of(hex.as_str());
    if crate::text::chars_eq(&hv, &ev) {
        Ok(())
    } else {
        proof {
            reveal_strlit("SHA256 mismatch for '");
            reveal_strlit("': expected ");
            reveal_strlit(", got ");
        }
        let m = String::from_str("SHA256 mismatch for '").concat(plugin_id).concat(
            "': expected ",
        ).concat(expected).concat(", got ").concat(hex.as_str());
        Err(m)
    }
}

/// The position of the first plugin with the name.
pub open spec fn name_index(ps: Seq<PluginProvider>, name: Seq<char>) -> Option<int>
    decreases ps.len(),
{
    if ps.len() == 0 {
        None
    } else if ps[0].name@ == name {
        Some(0)
    } else {
        match name_index(ps.drop_first(), name) {
            Some(i) => Some(i + 1),
            None => None,
        }
    }
}

/// Whether a plugin entry registers the installed binary of a registry
/// plugin: its name, the command, enabled, the registry id and version.
pub open spec fn registers(p: PluginProvider, plugin: RegistryPlugin, command: Seq<char>) -> bool {
    &&& p.name@ == plugin.name@
    &&& p.command@ == command
    &&& p.enabled
    &&& opt_view(p.registry_id) == Some(plugin.id@)
    &&& opt_view(p.version) == Some(plugin.version@)
}

/// Registers an installed registry plugin: a plugin of the same name is
/// replaced in place (keeping its id), otherwise one is added with a new
/// random id.
pub fn register_installed_plugin(settings: &mut AppSettings, plugin: &RegistryPlugin, command: String)
    ensures
        same_but_plugins(*old(settings), *final(settings)),
        match name_index(old(settings).target_providers.plugins@, plugin.name@) {
            Some(i) => {
                let o = old(settings).target_providers.plugins@;
                let n = final(settings).target_providers.plugins@;
                &&& n.len() == o.len()
                &&& forall|j: int| 0 <= j < o.len() && j != i ==> n[j] == o[j]
                &&& n[i].id@ == o[i].id@
                &&& registers(n[i], *plugin, command@)
            },
            None => {
                let o = old(settings).target_providers.plugins@;
                let n = final(settings).target_providers.plugins@;
                &&& n.len() == o.len() + 1
                &&& n.take(o.len() as int) == o
                &&& registers(n[o.len() as int], *plugin, command@)
            },
        },
{
    let nv = chars_of(plugin.name.as_str());
    let ghost o = settings.target_providers.plugins@;
    let mut i: usize = 0;
    assert(o.skip(0) =~= o);
    assert(shifted(name_index(o, plugin.name@), 0) == name_index(o, plugin.name@));
    while i < settings.target_providers.plugins.len()
        invariant
            i <= o.len(),
            settings.target_providers.plugins@ == o,
            old(settings).target_providers.plugins@ == o,
            same_but_plugins(*old(settings), *settings),
            nv@ == plugin.name@,
            name_index(o, plugin.name@) == shifted(name_index(o.skip(i as int), plugin.name@), i as int),
        decreases o.len() - i,
    {
        assert(o.skip(i as int).drop_first() =~= o.skip(i + 1));
        assert(o.skip(i as int)[0] == o[i as int]);
        let pn = chars_of(settings.target_providers.plugins[i].name.as_str());
        if crate::text::chars_eq(&pn, &nv) {
            let id = settings.target_providers.plugins[i].id.clone();
            let entry = PluginProvider {
                id,
                name: plugin.name.clone(),
                command,
                enabled: true,
                registry_id: Some(plugin.id.clone()),
                version: Some(plugin.version.clone()),
            };
            settings.target_providers.plugins.remove(i);
            settings.target_providers.plugins.insert(i, entry);
            assert forall|j: int| 0 <= j < o.len() && j != i implies settings.target_providers.plugins@[j]
                == o[j] by {}
            return;
        }
        i += 1;
    }
    assert(o.skip(i as int) =~= Seq::<PluginProvider>::empty());
    let entry = PluginProvider {
        id: new_plugin_id(),
        name: plugin.name.clone(),
        command,
        enabled: true,
        registry_id: Some(plugin.id.clone()),
        version: Some(plugin.version.clone()),
    };
    settings.target_providers.plugins.push(entry);
    assert(settings.target_providers.plugins@.take(o.len() as int) =~= o);
}

/// The position of the first plugin installed from a registry entry.
pub open spec fn registry_index(ps: Seq<PluginProvider>, registry_id: Seq<char>) -> Option<int>
    decreases ps.len(),
{
    if ps.len() == 0 {
        None
    } else if opt_view(ps[0].registry_id) == Some(registry_id) {
        Some(0)
    } else {
        match registry_index(ps.drop_first(), registry_id) {
            Some(i) => Some(i + 1),
            None => None,
        }
    }
}

/// The message of a registry plugin that is not installed.
pub open spec fn not_installed_error(registry_id: Seq<char>) -> Seq<char> {
    "Plugin '"@ + registry_id + "' is not installed from the registry"@
}

/// The position of the plugin installed from a registry entry; an error when
/// none was.
pub fn find_installed(settings: &AppSettings, registry_id: &str) -> (r: Result<usize, String>)
    ensures
        match registry_index(settings.target_providers.plugins@, registry_id@) {
            Some(i) => r == Ok::<usize, String>(i as usize) && i < settings.target_providers.plugins@.len(),
            None => r matches Err(m) && m@ == not_installed_error(registry_id@),
        },
{
    let rv = chars_of(registry_id);
    let ps = &settings.target_providers.plugins;
    let mut i: usize = 0;
    assert(ps@.skip(0) =~= ps@);
    assert(shifted(registry_index(ps@, registry_id@), 0) == registry_index(ps@, registry_id@));
    while i < ps.len()
        invariant
            i <= ps@.len(),
            rv@ == registry_id@,
            ps@ == settings.target_providers.plugins@,
            registry_index(ps@, registry_id@) == shifted(registry_index(ps@.skip(i as int), registry_id@), i as int),
        decreases ps.len() - i,
    {
        assert(ps@.skip(i as int).drop_first() =~= ps@.skip(i + 1));
        assert(ps@.skip(i as int)[0] == ps@[i as int]);
        match &ps[i].registry_id {
            Some(x) => {
                let xv = chars_of(x.as_str());
                if crate::text::chars_eq(&xv, &rv) {
                    assert(opt_view(ps@.skip(i as int)[0].registry_id) == Some(registry_id@));
                    assert(registry_index(ps@.skip(i as int), registry_id@) == Some(0int));
                    return Ok(i);
                }
            },
            None => {},
        }
        i += 1;
    }
    assert(ps@.skip(i as int) =~= Seq::<PluginProvider>::empty());
    proof {
        reveal_strlit("Plugin '");
        reveal_strlit("' is not installed from the registry");
    }
    Err(
        String::from_str("Plugin '").concat(registry_id).concat(
            "' is not installed from the registry",
        ),
    )
}

/// Records the version an installed plugin was updated to.
pub fn set_installed_version(settings: &mut AppSettings, idx: usize, version: &str)
    requires
        idx < old(settings).target_providers.plugins@.len(),
    ensures
        same_but_plugins(*old(settings), *final(settings)),
        ({
            let o = old(settings).target_providers.plugins@;
            let n = final(settings).target_providers.plugins@;
            &&& n.len() == o.len()
            &&& forall|j: int| 0 <= j < o.len() && j != idx ==> n[j] == o[j]
            &&& opt_view(n[idx as int].version) == Some(version@)
            &&& n[idx as int].id == o[idx as int].id
            &&& n[idx as int].name == o[idx as int].name
            &&& n[idx as int].command == o[idx as int].command
            &&& n[idx as int].enabled == o[idx as int].enabled
            &&& n[idx as int].registry_id == o[idx as int].registry_id
        }),
{
    let ghost o = settings.target_providers.plugins@;
    let mut p = settings.target_providers.plugins.remove(idx);
    p.version = Some(String::from_str(version));
    settings.target_providers.plugins.insert(idx, p);
    assert forall|j: int| 0 <= j < o.len() && j != idx implies settings.target_providers.plugins@[j]
        == o[j] by {}
}

/// A position moved `k` places on.
pub open spec fn shifted(o: Option<int>, k: int) -> Option<int> {
    match o {
        Some(j) => Some(j + k),
        None => None,
    }
}

/// No two plugins run the same command line.
pub open spec fn commands_unique(ps: Seq<PluginProvider>) -> bool {
    forall|i: int, j: int| 0 <= i < j < ps.len() ==> (#[trigger] ps[i]).command@ != (#[trigger] ps[j]).command@
}

/// Adding plugins keeps command lines unique: what `add_plugin` leaves (the
/// list unchanged, or the new plugin appended with a command no other plugin
/// runs) has no command line twice.
pub proof fn lemma_add_keeps_commands_unique(o: Seq<PluginProvider>, n: Seq<PluginProvider>, command: Seq<char>)
    requires
        commands_unique(o),
        n == o || (!has_command(o, command) && n.len() == o.len() + 1 && n.take(o.len() as int) == o
            && n[o.len() as int].command@ == command),
    ensures
        commands_unique(n),
{
    if n != o {
        assert forall|i: int, j: int| 0 <= i < j < n.len() implies (#[trigger] n[i]).command@ != (
        #[trigger] n[j]).command@ by {
            assert(n[i] == n.take(o.len() as int)[i]);
            if j < o.len() {
                assert(n[j] == n.take(o.len() as int)[j]);
            } else {
                assert(o[i].command@ != command);
            }
        }
    }
}

} // verus!
