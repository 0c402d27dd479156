//! Incremental parser for authenticated shell-integration control sequences
//! (`ESC ] 133;...` with a session nonce), turning a terminal byte stream into
//! prompt and command events.

pub mod event;
pub mod framer;
pub mod interpret;
pub mod laws;
pub mod text;

pub use event::{EventView, OscEvent};
pub use framer::{OscParser, ParserState, ParserView};
pub use interpret::{interpret, text_event};


