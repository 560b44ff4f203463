//! A verified parser and serializer for a line-oriented task-list text
//! format: one task per line, with a completion marker, an optional
//! priority, up to two calendar dates, tag tokens, and a free-form
//! description, plus an ordered collection of such tasks.

pub mod date;
pub mod laws;
pub mod line;
pub mod list;
pub mod record;
pub mod text;
