//! Schema-less reading of byte streams that may hold Protocol Buffers
//! messages.
//!
//! The stream arrives in slices. A [`cursor::DataReader`] walks one slice;
//! the functions of [`wire`] read numbers, tags and fields from it; the
//! probe of [`classifier`] guesses whether a chunk is a nested message; a
//! [`context::ParserContext`] carries the nesting of message boundaries
//! and the pending truncation from one slice to the next; and the
//! functions of [`tokenizer`] pull one opaque byte range at a time out of
//! the stream. What holds of the tokenizer on every input is proved in
//! [`laws`] and [`resumption`].
//!
//! Beside the tokenizer stands the display of a whole message, field by
//! field: [`codec`] reads the fields, [`guesser`] is the relaxed probe,
//! [`types`] holds the handlers that show values, [`formatter`] and
//! [`text`] deal with text, and [`parser`] puts the lines together.

pub mod classifier;
pub mod codec;
pub mod context;
pub mod cursor;
pub mod formatter;
pub mod guesser;
pub mod laws;
pub mod parser;
pub mod resumption;
pub mod text;
pub mod tokenizer;
pub mod types;
pub mod wire;
