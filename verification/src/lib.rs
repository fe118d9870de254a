//! Core of a PTY session manager: a registry of live terminal sessions
//! with unique ids and de-duplicated names, a streaming UTF-8 decoder for
//! the per-session output pump, an input recorder with a bounded-latency
//! flush policy and a newline-delimited JSON log format, and the pure
//! parts of shell resolution and shell-integration file generation.
//!
//! All OS work (PTY allocation, process spawn, file and terminal I/O,
//! clocks) happens at the caller's edge; every function here is a total,
//! verified computation over plain values.
pub mod digits;
pub mod errors;
pub mod files;
pub mod integration;
pub mod jsonl;
pub mod manager;
pub mod names;
pub mod persist;
pub mod recorder;
pub mod resolve;
pub mod sanitize;
pub mod secure;
pub mod text;
pub mod utf8_stream;
pub mod vscode;
