//! Clipboard synchronisation between machines on a local network.
//!
//! The crate holds the decisions of the clipboard subsystem: what a clipboard
//! item is ([`item`]), how items travel ([`protocol`], [`transport`]), which
//! peers there are connections to ([`registry`], [`network`]), when an item is
//! applied or broadcast ([`dedup`], [`clipboard`]), and how the clipboard tools
//! of the system are used ([`backend`]). [`wlroots`] holds those of the input
//! emulation on wlroots compositors.

pub mod backend;
pub mod bytes;
pub mod clipboard;
pub mod dedup;
pub mod endpoint;
pub mod hash;
pub mod item;
pub mod network;
pub mod protocol;
pub mod registry;
pub mod test_util;
pub mod text;
pub mod transport;
pub mod wlroots;

pub use backend::BackendKind;
pub use clipboard::{ClipboardEvent, ClipboardStatus};
pub use item::{ClipboardItem, DEFAULT_MAX_ITEM_SIZE};
