//! Verified core of a persistent terminal-session host: key-input encoding,
//! control-sequence filtering, display leadership, title coalescing,
//! history capture, wire framing and command-line parsing.
pub mod text;
pub mod console_input;
pub mod input;
pub mod display;
pub mod title_events;
pub mod history;
pub mod codec;
pub mod protocol;
pub mod daemon;
pub mod callbacks;
pub mod cli;
pub mod attachment;
pub mod process_owner;
pub mod launch;
pub mod client;
