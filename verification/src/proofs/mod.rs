//! What holds of the grammar for every text, proved from its definition.

pub mod commas;
pub mod escapes;
pub mod local;
pub mod nesting;
pub mod roundtrip;
pub mod wellformed;
pub mod whitespace;
