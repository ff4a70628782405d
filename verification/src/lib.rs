//! Composable operators over keyed rows: mapping, lock-step pasting, exact and
//! nearest-key joins over ordered maps, and the select / upsert / checked-drop
//! workflows, each with a contract that Verus proves.

pub use tonic;

pub mod status;

pub mod bridge;

pub mod rpc;

pub mod input;
pub mod output;

pub mod conv;
