//! Serialisation of git index entries and of the resolve-undo extension, and the
//! reflog- and lock-configuration steps of a loose-reference transaction.

pub mod encoding;
pub mod entry;
pub mod hash;
pub mod resolve_undo;
pub mod transaction;

pub use hash::{HashKind, ObjectId};
