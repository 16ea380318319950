//! Verified core of a headless IDE server: the wire model, the per-connection
//! terminal table, the parsers for `git` plumbing output, the agent thread
//! bookkeeping and the key/value settings store.

pub mod text;
pub mod protocol;
pub mod git;
pub mod sizes;
pub mod terminal;
pub mod connection;
pub mod keyed;
pub mod prefs;
pub mod json;
pub mod agent;
