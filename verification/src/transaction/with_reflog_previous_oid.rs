//! Errors returned by the transaction's reflog-configuration builders.

use vstd::prelude::*;

use crate::transaction::FullName;

verus! {

/// An invalid prepared edit or transaction state for a reflog-configuration builder.
#[derive(Debug)]
pub enum Error {
    /// the transaction must be prepared before configuring its reflog
    Unprepared,
    /// the prepared transaction has no edit named `name`
    MissingEdit { name: FullName },
    /// the prepared transaction has multiple edits named `name`
    AmbiguousEdit { name: FullName },
    /// the prepared edit named `name` is not an object update
    NotObjectUpdate { name: FullName },
    /// the prepared edit named `name` is not a symbolic update
    NotSymbolicUpdate { name: FullName },
}

} // verus!
