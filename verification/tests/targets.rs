use clipygo::settings::PluginProvider;
use clipygo::targets::{
    enabled_provider_names, first_offering, gather_targets, get_plugin_statuses, offers_target,
    provider_name_for_id, send_outcome, targets_contain, PluginStatus, Target,
};

fn plugin(id: &str, name: &str) -> PluginProvider {
    PluginProvider {
        id: id.into(),
        name: name.into(),
        command: "x".into(),
        enabled: true,
        registry_id: None,
        version: None,
    }
}

#[test]
fn statuses_follow_configuration_order() {
    let plugins = vec![plugin("1", "A"), plugin("2", "B"), plugin("3", "C")];
    let statuses = vec![
        ("C".to_string(), PluginStatus { healthy: false, error: Some("down".into()) }),
        ("A".to_string(), PluginStatus { healthy: true, error: None }),
    ];
    let out = get_plugin_statuses(&plugins, &statuses);
    assert_eq!(out.len(), 2);
    assert_eq!(out[0].id, "1");
    assert!(out[0].healthy);
    assert_eq!(out[1].name, "C");
    assert_eq!(out[1].error.as_deref(), Some("down"));
}

#[test]
fn provider_names_and_target_lookup() {
    let plugins = vec![plugin("1", "A"), plugin("2", "B")];
    assert_eq!(provider_name_for_id(&plugins, "2").as_deref(), Some("B"));
    assert!(provider_name_for_id(&plugins, "9").is_none());
    let targets = vec![Target {
        id: "target-1".into(),
        provider: "my-plugin".into(),
        formats: vec!["text".into()],
        title: "My Channel".into(),
        description: "A description".into(),
        image: "base64data==".into(),
    }];
    assert!(targets_contain(&targets, "target-1"));
    assert!(!targets_contain(&targets, "target-2"));
}

fn target(id: &str) -> Target {
    Target {
        id: id.into(),
        provider: "p".into(),
        formats: vec!["text".into()],
        title: id.into(),
        description: String::new(),
        image: String::new(),
    }
}

#[test]
fn only_enabled_plugins_are_asked_in_order() {
    let mut b = plugin("2", "B");
    b.enabled = false;
    let plugins = vec![plugin("1", "A"), b, plugin("3", "C")];
    assert_eq!(enabled_provider_names(&plugins), vec!["A".to_string(), "C".to_string()]);
}

#[test]
fn gathering_collects_targets_and_errors() {
    let replies = vec![
        ("A".to_string(), Ok(vec![target("t1"), target("t2")])),
        ("B".to_string(), Err("boom".to_string())),
        ("C".to_string(), Ok(vec![target("t3")])),
    ];
    let r = gather_targets(replies);
    let ids: Vec<&str> = r.targets.iter().map(|t| t.id.as_str()).collect();
    assert_eq!(ids, vec!["t1", "t2", "t3"]);
    assert_eq!(r.errors.len(), 1);
    assert_eq!(r.errors[0].plugin_name, "B");
    assert_eq!(r.errors[0].message, "boom");
}

#[test]
fn send_goes_to_the_offering_plugin_or_fails() {
    assert!(offers_target(&Ok(vec![target("t1")]), "t1"));
    assert!(!offers_target(&Ok(vec![target("t1")]), "t2"));
    assert!(!offers_target(&Err("x".into()), "t1"));
    assert_eq!(send_outcome("t1", Some(Ok(()))), Ok(()));
    assert_eq!(
        send_outcome("t1", Some(Err("nope".into()))),
        Err("Failed to send to target: nope".to_string())
    );
    assert_eq!(send_outcome("t9", None), Err("Target 't9' not found".to_string()));
}

#[test]
fn first_offering_picks_the_first_that_lists_the_target() {
    let replies = vec![
        Err("down".to_string()),
        Ok(vec![target("t1")]),
        Ok(vec![target("t2"), target("t9")]),
        Ok(vec![target("t9")]),
    ];
    assert_eq!(first_offering(&replies, "t9"), Some(2));
    assert_eq!(first_offering(&replies, "t1"), Some(1));
    assert_eq!(first_offering(&replies, "zz"), None);
}
