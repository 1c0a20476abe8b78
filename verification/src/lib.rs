//! Bulk checking of domain names against the Spamhaus Domain Blocklist (DBL):
//! input normalization, DBL query names, interpretation of DBL return codes,
//! and the figures of the final report.

pub mod text;
pub mod spamhaus;
pub mod addresses;
pub mod checker;
pub mod ordering;
pub mod host;
pub mod input;
pub mod report;
pub mod run;
