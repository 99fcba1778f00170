//! Configuration model of a bot that runs final comment periods on GitHub:
//! which logins belong to which team, which reactions a repository prohibits on
//! its issues and comments, and whether an issue is closed or postponed by
//! itself when its final comment period ends.
//!
//! A configuration is read from a TOML document (`schema`), answers queries
//! (`teams`, `reaction`) and is validated against a user store that lives outside
//! this library (`validation`). A text is only parsed if it does not nest too
//! deep for the parser (`nesting`).

pub mod document;
pub mod nesting;
pub mod reaction;
pub mod schema;
pub mod table;
pub mod teams;
pub mod text;
pub mod validation;

pub use nesting::NESTING_LIMIT;
pub use reaction::{ProhibitedReactions, Reaction, ReactionBehaviorConfig, ReactionVec};
pub use schema::{config_from_document, read_rfcbot_cfg_from, ParseError, Section};
pub use teams::{FcpBehavior, RfcbotConfig, Team, TeamLabel};
