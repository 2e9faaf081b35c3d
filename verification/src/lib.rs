//! Verified core of a clipboard monitor: clipboard history with encrypted
//! storage, text transforms ("morph"), command-line parsing, CF_HTML framing,
//! plugin protocol decisions and settings management.
use vstd::prelude::*;

pub mod text;
pub mod transforms;
pub mod lines;
pub mod markup;
pub mod tracking;
pub mod xml;
pub mod pattern;
pub mod json;
pub mod codec;
pub mod morph;
pub mod cf_html;
pub mod exec;
pub mod crypto;
pub mod history;
pub mod settings;
pub mod targets;
pub mod subprocess;
pub mod history_commands;
pub mod tray;

verus! {
} // verus!
