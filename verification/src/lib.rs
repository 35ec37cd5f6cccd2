//! Scoring of territory control logs.
//!
//! A board is a set of zones. Each zone has a size and a log of the moments at
//! which a team took it. From the logs and the time at which the match ends, the
//! library works out for every team how long it held how much ground.
//!
//! - `time`: times of day and whole seconds between them.
//! - `log`: log entries and zones.
//! - `text`: the text form of a log.
//! - `score`: the rules of scoring, stated over claims.
//! - `table`: the table of scores.
//! - `board`: the board and its evaluation.
//! - `laws`: what holds of every board, with proofs.

pub mod board;
pub mod laws;
pub mod log;
pub mod score;
pub mod table;
pub mod text;
pub mod time;

pub use board::{Board, ScoreError};
pub use log::{BoardPart, LogEntry};
pub use table::ScoreTable;
pub use text::{ParseError, ParseFault};
pub use time::{MatchWindow, TimeOfDay};
