use clipygo::tray::{event_window, notification_action, tray_action, tray_menu, AppWindow, TrayAction, TrayEntry};

#[test]
fn tray_menu_with_debug_entry() {
    let m = tray_menu(Some(true));
    assert_eq!(
        m,
        vec![
            TrayEntry::Show,
            TrayEntry::Settings,
            TrayEntry::DebugLog,
            TrayEntry::Separator,
            TrayEntry::About,
            TrayEntry::Quit
        ]
    );
}

#[test]
fn tray_menu_without_debug_entry() {
    let m = tray_menu(Some(false));
    assert_eq!(
        m,
        vec![TrayEntry::Show, TrayEntry::Settings, TrayEntry::Separator, TrayEntry::About, TrayEntry::Quit]
    );
}

#[test]
fn tray_menu_unreadable_settings_shows_debug() {
    assert!(tray_menu(None).contains(&TrayEntry::DebugLog));
}

#[test]
fn tray_entry_ids_and_texts() {
    assert_eq!(TrayEntry::Show.id(), Some("show"));
    assert_eq!(TrayEntry::DebugLog.id(), Some("debug"));
    assert_eq!(TrayEntry::DebugLog.text(), Some("Debug Log"));
    assert_eq!(TrayEntry::Separator.id(), None);
    assert_eq!(TrayEntry::Quit.text(), Some("Quit"));
}

#[test]
fn tray_actions_per_event() {
    assert_eq!(tray_action("show", true), TrayAction::Reveal(AppWindow::Main));
    assert_eq!(tray_action("show", false), TrayAction::Ignore);
    assert_eq!(tray_action("settings", false), TrayAction::Create(AppWindow::Settings));
    assert_eq!(tray_action("settings", true), TrayAction::Reveal(AppWindow::Settings));
    assert_eq!(tray_action("debug", false), TrayAction::Create(AppWindow::DebugLog));
    assert_eq!(tray_action("about", false), TrayAction::Create(AppWindow::About));
    assert_eq!(tray_action("quit", false), TrayAction::Quit);
    assert_eq!(tray_action("bogus", false), TrayAction::Unhandled);
    assert_eq!(event_window("quit"), None);
}

#[test]
fn every_menu_entry_is_handled() {
    for e in tray_menu(Some(true)) {
        if let Some(id) = e.id() {
            assert_ne!(tray_action(id, false), TrayAction::Unhandled);
            assert_ne!(tray_action(id, true), TrayAction::Unhandled);
        }
    }
}

#[test]
fn window_setups() {
    let s = AppWindow::Settings.setup().unwrap();
    assert_eq!((s.width, s.height), (1024, 768));
    assert!(s.centered && !s.decorations);
    let a = AppWindow::About.setup().unwrap();
    assert!(!a.resizable);
    assert_eq!((a.width, a.height), (360, 360));
    let n = AppWindow::Notification.setup().unwrap();
    assert!(n.always_on_top && !n.focused);
    assert_eq!(AppWindow::Main.setup(), None);
    assert_eq!(AppWindow::Notification.label(), "notification");
    assert_eq!(AppWindow::DebugLog.title(), Some("Debug Log - clipygo"));
}

#[test]
fn notification_window_shown_or_created() {
    assert_eq!(notification_action(true), TrayAction::Reveal(AppWindow::Notification));
    assert_eq!(notification_action(false), TrayAction::Create(AppWindow::Notification));
}
