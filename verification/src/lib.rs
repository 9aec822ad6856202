#![verifier::loop_isolation(false)]
//! Builds a DNS blocklist: recognizes host names and addresses in fetched
//! text, canonicalizes them, and merges the per-source results into one
//! deduplicated set ready for rendering as a DNS policy zone.

pub mod fetch;
pub mod hosts;
pub mod parse;
pub mod render;
