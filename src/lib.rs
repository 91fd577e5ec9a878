//! Session management for an editor's long-lived subprocesses: terminals on a
//! pseudo-terminal and protocol servers that speak length-prefixed frames, with
//! the text handling they need, proved correct against their specifications.
//!
//! - `utf8_stream`: incremental UTF-8 decoding across reads.
//! - `output_buffer`: the bounded output buffer of a terminal.
//! - `framing`: the `Content-Length` frame format, both directions.
//! - `registry`: sessions by id, with ids never reused.
//! - `session`: the state of terminal and protocol sessions and the decisions
//!   of their commands and readers.
//! - `git`, `paths`: parsing of git output and workspace path helpers.
//! - `runner`: the argument template of a command run on behalf of a prompt.
//! - `text`: character-level helpers shared by the above.

pub mod framing;
pub mod git;
pub mod output_buffer;
pub mod paths;
pub mod registry;
pub mod runner;
pub mod session;
pub mod text;
pub mod utf8_stream;
