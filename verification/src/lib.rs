//! A command-line task tracker library: a task store with monotone id
//! assignment, a command parser, a dispatcher, and a codec for the persisted
//! task file. All logic is verified; reading the clock and the actual file
//! and terminal I/O live outside this crate.

pub mod errors;
pub mod text;
pub mod time;
pub mod task;
pub mod command;
pub mod dispatch;
pub mod codec;
