//! The tray menu and the windows it brings up: which entries the menu shows,
//! what each menu event does, and how each window is set up when it has to
//! be created. The windowing shell performs the actions.
use vstd::prelude::*;
use crate::text::str_eq;

verus! {

/// One entry of the tray menu.
#[derive(Clone, Copy, Debug, PartialEq, Eq, Structural)]
pub enum TrayEntry {
    Show,
    Settings,
    DebugLog,
    Separator,
    About,
    Quit,
}

/// A window of the application.
#[derive(Clone, Copy, Debug, PartialEq, Eq, Structural)]
pub enum AppWindow {
    Main,
    Settings,
    DebugLog,
    About,
    Notification,
}

/// What a tray menu event asks of the shell.
#[derive(Clone, Copy, Debug, PartialEq, Eq, Structural)]
pub enum TrayAction {
    /// Show the window and give it the focus.
    Reveal(AppWindow),
    /// Create the window (see `AppWindow::setup`).
    Create(AppWindow),
    /// Nothing to do.
    Ignore,
    /// Leave the application with exit code 0.
    Quit,
    /// An event of no known entry: logged as a warning.
    Unhandled,
}

/// How a window is built when it does not exist yet. Sizes are logical
/// pixels; every such window hides, rather than closes, when asked to close.
#[derive(Clone, Copy, Debug, PartialEq, Eq, Structural)]
pub struct WindowSetup {
    pub width: u32,
    pub height: u32,
    pub resizable: bool,
    pub decorations: bool,
    pub devtools: bool,
    pub centered: bool,
    pub always_on_top: bool,
    pub focused: bool,
}

/// The menu, top to bottom; the debug-log entry only where it is enabled.
pub open spec fn tray_menu_spec(show_debug: bool) -> Seq<TrayEntry> {
    if show_debug {
        seq![
            TrayEntry::Show,
            TrayEntry::Settings,
            TrayEntry::DebugLog,
            TrayEntry::Separator,
            TrayEntry::About,
            TrayEntry::Quit,
        ]
    } else {
        seq![TrayEntry::Show, TrayEntry::Settings, TrayEntry::Separator, TrayEntry::About, TrayEntry::Quit]
    }
}

/// Whether the debug-log entry is offered: as the saved settings say, and
/// yes when they cannot be read.
pub open spec fn debug_entry_shown(saved: Option<bool>) -> bool {
    match saved {
        Some(b) => b,
        None => true,
    }
}

/// The tray menu for the saved `show_debug_log` setting (`None` when the
/// settings could not be read).
pub fn tray_menu(saved_show_debug: Option<bool>) -> (r: Vec<TrayEntry>)
    ensures
        r@ == tray_menu_spec(debug_entry_shown(saved_show_debug)),
{
    let show_debug = match saved_show_debug {
        Some(b) => b,
        None => true,
    };
    let mut v: Vec<TrayEntry> = Vec::new();
    v.push(TrayEntry::Show);
    v.push(TrayEntry::Settings);
    if show_debug {
        v.push(TrayEntry::DebugLog);
    }
    v.push(TrayEntry::Separator);
    v.push(TrayEntry::About);
    v.push(TrayEntry::Quit);
    v
}

/// The event id of each entry (the separator has none).
pub open spec fn entry_id_spec(e: TrayEntry) -> Option<Seq<char>> {
    match e {
        TrayEntry::Show => Some("show"@),
        TrayEntry::Settings => Some("settings"@),
        TrayEntry::DebugLog => Some("debug"@),
        TrayEntry::Separator => None,
        TrayEntry::About => Some("about"@),
        TrayEntry::Quit => Some("quit"@),
    }
}

/// The text each entry shows.
pub open spec fn entry_text_spec(e: TrayEntry) -> Option<Seq<char>> {
    match e {
        TrayEntry::Show => Some("Show"@),
        TrayEntry::Settings => Some("Settings"@),
        TrayEntry::DebugLog => Some("Debug Log"@),
        TrayEntry::Separator => None,
        TrayEntry::About => Some("About"@),
        TrayEntry::Quit => Some("Quit"@),
    }
}

impl TrayEntry {
    /// The id that the entry's events carry.
    pub fn id(&self) -> (r: Option<&'static str>)
        ensures
            match r {
                Some(s) => entry_id_spec(*self) == Some(s@),
                None => entry_id_spec(*self) is None,
            },
    {
        match self {
            TrayEntry::Show => Some("show"),
            TrayEntry::Settings => Some("settings"),
            TrayEntry::DebugLog => Some("debug"),
            TrayEntry::Separator => None,
            TrayEntry::About => Some("about"),
            TrayEntry::Quit => Some("quit"),
        }
    }

    /// The text the entry shows.
    pub fn text(&self) -> (r: Option<&'static str>)
        ensures
            match r {
                Some(s) => entry_text_spec(*self) == Some(s@),
                None => entry_text_spec(*self) is None,
            },
    {
        match self {
            TrayEntry::Show => Some("Show"),
            TrayEntry::Settings => Some("Settings"),
            TrayEntry::DebugLog => Some("Debug Log"),
            TrayEntry::Separator => None,
            TrayEntry::About => Some("About"),
            TrayEntry::Quit => Some("Quit"),
        }
    }
}

/// The window that a menu event is about, by the event's id.
pub open spec fn event_window_spec(id: Seq<char>) -> Option<AppWindow> {
    if id == "show"@ {
        Some(AppWindow::Main)
    } else if id == "settings"@ {
        Some(AppWindow::Settings)
    } else if id == "debug"@ {
        Some(AppWindow::DebugLog)
    } else if id == "about"@ {
        Some(AppWindow::About)
    } else {
        None
    }
}

/// What a menu event does, given whether its window already exists: an
/// existing window is shown and focused; a missing one is created, except
/// the main window, which is then left alone; "quit" leaves the
/// application; any other id is unhandled.
pub open spec fn tray_action_spec(id: Seq<char>, window_open: bool) -> TrayAction {
    match event_window_spec(id) {
        Some(w) => if window_open {
            TrayAction::Reveal(w)
        } else if w == AppWindow::Main {
            TrayAction::Ignore
        } else {
            TrayAction::Create(w)
        },
        None => if id == "quit"@ {
            TrayAction::Quit
        } else {
            TrayAction::Unhandled
        },
    }
}

/// The window that the menu event `id` is about, if any.
pub fn event_window(id: &str) -> (r: Option<AppWindow>)
    ensures
        r == event_window_spec(id@),
{
    if str_eq(id, "show") {
        Some(AppWindow::Main)
    } else if str_eq(id, "settings") {
        Some(AppWindow::Settings)
    } else if str_eq(id, "debug") {
        Some(AppWindow::DebugLog)
    } else if str_eq(id, "about") {
        Some(AppWindow::About)
    } else {
        None
    }
}

/// The action for the menu event `id`; `window_open` says whether the
/// window of `event_window(id)` exists.
pub fn tray_action(id: &str, window_open: bool) -> (r: TrayAction)
    ensures
        r == tray_action_spec(id@, window_open),
{
    match event_window(id) {
        Some(w) => if window_open {
            TrayAction::Reveal(w)
        } else {
            match w {
                AppWindow::Main => TrayAction::Ignore,
                _ => TrayAction::Create(w),
            }
        },
        None => if str_eq(id, "quit") {
            TrayAction::Quit
        } else {
            TrayAction::Unhandled
        },
    }
}

/// What to do about the notification window when an incoming message is
/// announced: show it if it exists, else create it.
pub fn notification_action(window_open: bool) -> (r: TrayAction)
    ensures
        window_open ==> r == TrayAction::Reveal(AppWindow::Notification),
        !window_open ==> r == TrayAction::Create(AppWindow::Notification),
{
    if window_open {
        TrayAction::Reveal(AppWindow::Notification)
    } else {
        TrayAction::Create(AppWindow::Notification)
    }
}

pub open spec fn window_label_spec(w: AppWindow) -> Seq<char> {
    match w {
        AppWindow::Main => "main"@,
        AppWindow::Settings => "settings"@,
        AppWindow::DebugLog => "debug"@,
        AppWindow::About => "about"@,
        AppWindow::Notification => "notification"@,
    }
}

pub open spec fn window_title_spec(w: AppWindow) -> Option<Seq<char>> {
    match w {
        AppWindow::Main => None,
        AppWindow::Settings => Some("Settings - clipygo"@),
        AppWindow::DebugLog => Some("Debug Log - clipygo"@),
        AppWindow::About => Some("About - clipygo"@),
        AppWindow::Notification => Some("clipygo — notification"@),
    }
}

pub open spec fn window_setup_spec(w: AppWindow) -> Option<WindowSetup> {
    match w {
        AppWindow::Main => None,
        AppWindow::Settings => Some(
            WindowSetup {
                width: 1024,
                height: 768,
                resizable: true,
                decorations: false,
                devtools: true,
                centered: true,
                always_on_top: false,
                focused: true,
            },
        ),
        AppWindow::DebugLog => Some(
            WindowSetup {
                width: 900,
                height: 600,
                resizable: true,
                decorations: false,
                devtools: true,
                centered: true,
                always_on_top: false,
                focused: true,
            },
        ),
        AppWindow::About => Some(
            WindowSetup {
                width: 360,
                height: 360,
                resizable: false,
                decorations: false,
                devtools: true,
                centered: true,
                always_on_top: false,
                focused: true,
            },
        ),
        AppWindow::Notification => Some(
            WindowSetup {
                width: 360,
                height: 300,
                resizable: true,
                decorations: false,
                devtools: true,
                centered: false,
                always_on_top: true,
                focused: false,
            },
        ),
    }
}

impl AppWindow {
    /// The label by which the shell finds the window.
    pub fn label(&self) -> (r: &'static str)
        ensures
            r@ == window_label_spec(*self),
    {
        match self {
            AppWindow::Main => "main",
            AppWindow::Settings => "settings",
            AppWindow::DebugLog => "debug",
            AppWindow::About => "about",
            AppWindow::Notification => "notification",
        }
    }

    /// The title of a window that this library creates (the main window is
    /// the shell's own).
    pub fn title(&self) -> (r: Option<&'static str>)
        ensures
            match r {
                Some(s) => window_title_spec(*self) == Some(s@),
                None => window_title_spec(*self) is None,
            },
    {
        match self {
            AppWindow::Main => None,
            AppWindow::Settings => Some("Settings - clipygo"),
            AppWindow::DebugLog => Some("Debug Log - clipygo"),
            AppWindow::About => Some("About - clipygo"),
            AppWindow::Notification => Some("clipygo — notification"),
        }
    }

    /// How the window is built when it has to be created.
    pub fn setup(&self) -> (r: Option<WindowSetup>)
        ensures
            r == window_setup_spec(*self),
    {
        match self {
            AppWindow::Main => None,
            AppWindow::Settings => Some(
                WindowSetup {
                    width: 1024,
                    height: 768,
                    resizable: true,
                    decorations: false,
                    devtools: true,
                    centered: true,
                    always_on_top: false,
                    focused: true,
                },
            ),
            AppWindow::DebugLog => Some(
                WindowSetup {
                    width: 900,
                    height: 600,
                    resizable: true,
                    decorations: false,
                    devtools: true,
                    centered: true,
                    always_on_top: false,
                    focused: true,
                },
            ),
            AppWindow::About => Some(
                WindowSetup {
                    width: 360,
                    height: 360,
                    resizable: false,
                    decorations: false,
                    devtools: true,
                    centered: true,
                    always_on_top: false,
                    focused: true,
                },
            ),
            AppWindow::Notification => Some(
                WindowSetup {
                    width: 360,
                    height: 300,
                    resizable: true,
                    decorations: false,
                    devtools: true,
                    centered: false,
                    always_on_top: true,
                    focused: false,
                },
            ),
        }
    }
}

/// Every menu entry with an id leads, through its event, to the action of
/// that entry: the menu and the event handling agree.
pub proof fn lemma_menu_events_handled(show_debug: bool, i: int, window_open: bool)
    requires
        0 <= i < tray_menu_spec(show_debug).len(),
        entry_id_spec(tray_menu_spec(show_debug)[i]) is Some,
    ensures
        tray_action_spec(entry_id_spec(tray_menu_spec(show_debug)[i])->0, window_open)
            != TrayAction::Unhandled,
{
    reveal_strlit("show");
    reveal_strlit("settings");
    reveal_strlit("debug");
    reveal_strlit("about");
    reveal_strlit("quit");
}

} // verus!
