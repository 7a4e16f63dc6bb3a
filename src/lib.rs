//! The editing core of a single-line terminal text input: a grapheme-aware
//! text buffer with a byte-offset cursor, a closed set of edit commands, a
//! bounded history of submitted lines and a one-slot kill register.

pub mod engine;
pub mod history;
pub mod kill;
pub mod line_buffer;
pub mod segment;
pub mod text;

pub use engine::{EditCommand, Engine};
pub use history::HistoryStore;
pub use kill::KillRegister;
pub use line_buffer::{InvalidPosition, LineBuffer};
