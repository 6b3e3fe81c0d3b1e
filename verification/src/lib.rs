//! Taskband's library: the pure logic of a Waybar-style status bar that lives
//! on the Windows taskbar — layout arithmetic, module styling, span markup,
//! text-preserving edits of the JSON5 config, module scheduling, catalog
//! rendering and the configurator's request handling.

pub mod layout;
pub mod text;
pub mod editor;
pub mod markup;
pub mod plugin;
pub mod css;
pub mod config;
pub mod taskbar;
pub mod server;
pub mod catalog;
pub mod tray;
