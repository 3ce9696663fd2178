//! Structured log lines for a cloud logging ingestion schema.
//!
//! The crate assembles one JSON document per log event: a fixed envelope
//! (timestamp, severity, logger, source location), an optional `span` object
//! merged in from a per-span cache of previously recorded fields, and the
//! event's own fields, accumulated by a typed field visitor.  Everything is
//! rendered into a single line of UTF-8 bytes terminated by a newline, and
//! the renderer is verified to emit exactly the text that the specification
//! functions describe.

pub mod assemble;
pub mod cache;
mod clock;
pub mod doc;
pub mod laws;
pub mod num;
pub mod parse;
pub mod severity;
pub mod text;
pub mod visitor;
