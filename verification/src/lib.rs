//! A minimal persistent key-value store: an in-memory string-to-string
//! mapping mirrored to a flat text file, one `key:value` line per entry.
//! The `codec` module states and proves the line format; the `store`
//! module holds the mapping and the operations on it. Reading and
//! writing the backing file is left to the surrounding program, which
//! hands the file's text in and carries the serialized text out.

pub mod codec;
pub mod store;
