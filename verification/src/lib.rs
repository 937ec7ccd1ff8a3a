//! Line-oriented substring search over a text body, with the rules that
//! resolve a run's configuration from its arguments and environment.

pub mod config;
pub mod encoding;
pub mod engine;
pub mod lines;
pub mod runner;
pub mod substring;

pub use config::{Config, ConfigError};
pub use engine::{search, search_case_insensitive};
pub use runner::run;
