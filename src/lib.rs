//! Ordered, resumable chunk translation pipeline: a chunk reader over the
//! lines of a text file, a decoder for a delimiter-framed event stream, a
//! sequencer that restores chunk order, and the cursor arithmetic that lets a
//! later run resume.
pub mod api;
pub mod files;
pub mod progress;
pub mod reader;
pub mod sequencer;
pub mod stream;
