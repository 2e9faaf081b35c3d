use clipygo::settings::{
    add_plugin, default_registry_url, extract_program, find_installed, lower_hex_exec,
    platform_for, plugin_binary_name, register_installed_plugin, remove_plugin,
    set_installed_version, toggle_plugin, update_plugin, verify_download, AppSettings,
    PluginProvider, RegistryPlatform, RegistryPlugin, DEFAULT_REGISTRY_URL,
};

#[test]
fn extract_program_bare_name() {
    assert_eq!(extract_program("node plugin.js"), "node");
}

#[test]
fn extract_program_quoted_path_with_spaces() {
    assert_eq!(
        extract_program(r#""C:\path with spaces\plugin.exe" --arg"#),
        r"C:\path with spaces\plugin.exe"
    );
}

#[test]
fn extract_program_single_token() {
    assert_eq!(extract_program("myplugin"), "myplugin");
}

#[test]
fn extract_program_empty() {
    assert_eq!(extract_program(""), "");
}

#[test]
fn extract_program_whitespace_only() {
    assert_eq!(extract_program("   "), "");
}

#[test]
fn extract_program_trims_leading_whitespace() {
    assert_eq!(extract_program("  node plugin.js"), "node");
}

#[test]
fn extract_program_unclosed_quote_takes_the_rest() {
    assert_eq!(extract_program("\"my prog --x"), "my prog --x");
}

#[test]
fn app_settings_defaults() {
    let s = AppSettings::default();
    assert!(s.autostart);
    assert_eq!(s.global_shortcut, "Ctrl+F10");
    assert_eq!(s.regex_list.len(), 4);
    assert!(s.target_providers.plugins.is_empty());
    assert!(!s.target_providers.msteams.enabled);
    assert_eq!(s.registry_url, DEFAULT_REGISTRY_URL);
    assert_eq!(
        default_registry_url(),
        "https://raw.githubusercontent.com/it-atelier-gn/clipygo-plugins/main/registry.json"
    );
}

fn plugin(id: &str, name: &str, command: &str) -> PluginProvider {
    PluginProvider {
        id: id.into(),
        name: name.into(),
        command: command.into(),
        enabled: true,
        registry_id: None,
        version: None,
    }
}

#[test]
fn add_plugin_refuses_duplicate_command() {
    let mut s = AppSettings::default();
    let id = add_plugin(&mut s, "node a.js".into(), "A".into()).unwrap();
    assert_eq!(s.target_providers.plugins.len(), 1);
    assert_eq!(s.target_providers.plugins[0].id, id);
    assert!(s.target_providers.plugins[0].enabled);
    assert_eq!(
        add_plugin(&mut s, "node a.js".into(), "B".into()).unwrap_err(),
        "Plugin with this command already exists"
    );
    assert_eq!(s.target_providers.plugins.len(), 1);
}

#[test]
fn update_toggle_and_remove_plugins() {
    let mut s = AppSettings::default();
    s.target_providers.plugins = vec![plugin("1", "A", "a"), plugin("2", "B", "b")];
    update_plugin(&mut s, "2", "Bee".into(), "bee --x".into()).unwrap();
    assert_eq!(s.target_providers.plugins[1].name, "Bee");
    assert_eq!(s.target_providers.plugins[1].command, "bee --x");
    toggle_plugin(&mut s, "1", false).unwrap();
    assert!(!s.target_providers.plugins[0].enabled);
    assert_eq!(update_plugin(&mut s, "9", "x".into(), "y".into()).unwrap_err(), "Plugin not found");
    assert_eq!(toggle_plugin(&mut s, "9", true).unwrap_err(), "Plugin not found");
    remove_plugin(&mut s, "1").unwrap();
    assert_eq!(s.target_providers.plugins.len(), 1);
    assert_eq!(s.target_providers.plugins[0].id, "2");
}

fn registry_plugin() -> RegistryPlugin {
    RegistryPlugin {
        id: "my-plugin".into(),
        name: "My Plugin".into(),
        description: "Does stuff".into(),
        author: "Alice".into(),
        version: "1.0.0".into(),
        repo: "https://github.com/alice/my-plugin".into(),
        platforms: vec![(
            "windows-x86_64".to_string(),
            RegistryPlatform {
                url: "https://example.com/plugin.exe".into(),
                sha256: "abc123".into(),
            },
        )],
    }
}

#[test]
fn platform_lookup_and_binary_names() {
    let p = registry_plugin();
    let win = platform_for(&p, "windows-x86_64").unwrap();
    assert_eq!(win.url, "https://example.com/plugin.exe");
    assert_eq!(win.sha256, "abc123");
    assert_eq!(
        platform_for(&p, "linux-x86_64").unwrap_err(),
        "No binary for platform 'linux-x86_64'"
    );
    assert_eq!(plugin_binary_name("my-plugin", "windows-x86_64"), "my-plugin-windows-x86_64.exe");
    assert_eq!(plugin_binary_name("my-plugin", "linux-x86_64"), "my-plugin-linux-x86_64");
}

#[test]
fn downloads_are_checked_against_sha256() {
    let empty_digest = "e3b0c44298fc1c149afbf4c8996fb92427ae41e4649b934ca495991b7852b855";
    assert!(verify_download("p", "", b"anything").is_ok());
    assert!(verify_download("p", empty_digest, b"").is_ok());
    assert_eq!(
        verify_download("p", "00", b"").unwrap_err(),
        format!("SHA256 mismatch for 'p': expected 00, got {empty_digest}")
    );
    assert_eq!(lower_hex_exec(&[0, 15, 16, 255]), "000f10ff");
}

#[test]
fn installing_registers_and_updating_sets_version() {
    let mut s = AppSettings::default();
    let p = registry_plugin();
    register_installed_plugin(&mut s, &p, "/data/plugins/my-plugin".into());
    assert_eq!(s.target_providers.plugins.len(), 1);
    let first_id = s.target_providers.plugins[0].id.clone();
    assert_eq!(s.target_providers.plugins[0].registry_id.as_deref(), Some("my-plugin"));
    // installing again replaces the entry of the same name and keeps its id
    register_installed_plugin(&mut s, &p, "/data/plugins/my-plugin-2".into());
    assert_eq!(s.target_providers.plugins.len(), 1);
    assert_eq!(s.target_providers.plugins[0].id, first_id);
    assert_eq!(s.target_providers.plugins[0].command, "/data/plugins/my-plugin-2");
    let idx = find_installed(&s, "my-plugin").unwrap();
    set_installed_version(&mut s, idx, "2.0.0");
    assert_eq!(s.target_providers.plugins[0].version.as_deref(), Some("2.0.0"));
    assert_eq!(
        find_installed(&s, "other").unwrap_err(),
        "Plugin 'other' is not installed from the registry"
    );
}
