//! Ingestion of Apache/NCSA combined access logs into a normalized store.
//!
//! * `parser`: the grammar of a log line, and the entry a line describes, with the
//!   client pseudonymized;
//! * `block`: a block of parsed lines split from its errors, deduplicated and
//!   sorted by time;
//! * `cache`: the identity cache of the persister, and the steps that store an
//!   entry with its dimension rows;
//! * `progress`: the counters of the progress line;
//! * `models`: the entries and dimension values; `utils`: result adapters.

pub mod block;
pub mod cache;
pub mod models;
pub mod parser;
pub mod progress;
pub mod utils;
