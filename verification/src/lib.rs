//! Checks tracked manga series for newly published chapters.
//!
//! A config file lists the tracked series; each series' URL template yields
//! a candidate URL for its next chapter by placeholder substitution; the
//! caller probes each candidate URL and the library collects and reports
//! the ones that exist. Parsing, URL derivation, filtering, match
//! collection and report rendering are all verified; reading the config
//! file and issuing the HTTP probes are left to the caller.

pub mod config;
pub mod probe;
pub mod series;
