//! Unique-username availability checker: the decisions, as verified code.
//!
//! - [`checker`]: what to do for a check, response by response, and what a
//!   response of the username-attempt endpoint means.
//! - [`pacing`]: when the tasks of a batch may start.
//! - [`generator`]: exhaustive and random generation of 3- and 4-letter handles;
//!   [`uniformity`] shows that random ones are drawn without favor.
//! - [`result`]: [`CheckResult`] / [`Status`] domain types.
//! - [`persistence`]: username lists, plain-text and JSON Lines result logs;
//!   [`records`] are what the latter hold.
//! - [`cli`] and [`session`]: what the command line and the desktop session decide
//!   and show.
//!
//! Requests, files, clocks of running batches and widgets belong to the programs
//! around the library.
pub mod checker;
pub mod cli;
pub mod clock;
pub mod counts;
pub mod generator;
pub mod interval;
pub mod json;
pub mod pacing;
pub mod persistence;
pub mod randomness;
pub mod records;
pub mod result;
pub mod seconds;
pub mod session;
pub mod styled;
pub mod text;
pub mod uniformity;

pub use checker::{Checker, CheckerConfig};
pub use generator::{
    generate, Charset, GenMode, GenerateConfig, Length, SPACE_3_LETTERS, SPACE_4_LETTERS,
};
pub use persistence::{append_jsonl_log, append_text_log, parse_usernames_text};
pub use result::{CheckResult, Status};
