//! The verified core of a MUD client's panes, terminal and map tooling:
//! the tab-group pane layout model and the grid and drag decisions built on
//! it, the terminal scrollback buffer and the VT stream processor that
//! fills it, OSC 8 link configuration, the layouts modal's state machine,
//! remote-state delivery between sessions, and the plain-data decisions of
//! map relocation and legacy map migration.

pub mod ansi;
pub mod drag_overlay;
pub mod grid_build;
pub mod input_history;
pub mod json;
pub mod layouts;
pub mod link_config;
pub mod local_migration;
pub mod pane_drag;
pub mod pane_edges;
pub mod pane_groups;
pub mod presentation;
pub mod relocation;
pub mod remote_interop;
pub mod tab_host;
pub mod terminal_buffer;
pub mod terminal_pane;
pub mod text;
pub mod vt_processor;
pub mod word_search;
