//! Formatting-preserving editing of env files across microservices.

pub mod text;
pub mod b64;
pub mod git;
pub mod model;
pub mod order;
pub mod color;
pub mod display;
pub mod changes;
pub mod config;
pub mod pattern;
pub mod context;
pub mod compare;
pub mod unused;
pub mod regexp;
pub mod fake_secrets;
pub mod search;
pub mod edit;
pub mod secret;
pub mod encrypt;
pub mod remove;
pub mod findings;
pub mod duplicates;
pub mod tui;
pub mod wizard;
pub mod discovery;
pub mod parser;
