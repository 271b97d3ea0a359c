//! Ensuring that a prepared edit holds the lock of its loose reference.
//!
//! Acquiring the lock touches the file system, so it happens between two steps:
//! [`Transaction::ensure_ref_lock`] decides whether a lock is needed and for which
//! edit, and [`Transaction::finish_ref_lock`] records the lock that was acquired, or
//! the error that acquiring it gave.

use vstd::prelude::*;

use crate::transaction::{
    edit_lookup, find_sole_edit, holds_lock, is_guarded, lemma_lookup_found, lock_recorded, Change,
    EditLookup, FullName, Lookup, LooseRefGuard, Transaction,
};

verus! {

/// The error returned when ensuring that a prepared edit holds the lock of its loose reference;
/// `E` is the error of a failed lock acquisition.
#[derive(Debug)]
pub enum Error<E> {
    /// the transaction must be prepared before ensuring a reference lock
    Unprepared,
    /// the prepared transaction has no edit named `name`
    MissingEdit { name: FullName },
    /// the prepared transaction has multiple edits named `name`
    AmbiguousEdit { name: FullName },
    /// could not acquire the loose-reference lock for `name`
    LockAcquire { source: E, name: FullName },
}

/// What remains to be done to ensure that a prepared edit holds its reference's lock.
pub enum LockStep<T> {
    /// The transaction holds the lock already, and is unchanged.
    Held(T),
    /// The lock of the loose reference must be acquired for the edit at `index`, and the
    /// outcome handed to [`Transaction::finish_ref_lock`].
    Acquire {
        /// The unchanged transaction.
        transaction: T,
        /// The index of the edit among the prepared edits.
        index: usize,
    },
}

impl<'s, F> Transaction<'s, F> {
    /// Ensure the prepared edit named `name` holds the lock for its loose reference path.
    ///
    /// A transaction that already holds the named lock is unchanged. This is useful when a no-op update released its
    /// ordinary update lock, but its caller must still exclude a concurrent loose reference update before revalidating
    /// an external precondition.
    pub fn ensure_ref_lock<E>(self, name: &FullName) -> (r: Result<LockStep<Self>, Error<E>>)
        ensures
            match edit_lookup(self.updates, name.0@) {
                EditLookup::Unprepared => r matches Err(Error::Unprepared),
                EditLookup::Missing => r matches Err(Error::MissingEdit { name: n }) && n.0@ == name.0@,
                EditLookup::Ambiguous => r matches Err(Error::AmbiguousEdit { name: n }) && n.0@
                    == name.0@,
                EditLookup::Found(i) => if holds_lock(self.updates.unwrap()@[i], self.loose_ref_guards@) {
                    r matches Ok(LockStep::Held(t)) && t == self
                } else {
                    r matches Ok(LockStep::Acquire { transaction: t, index }) && t == self && index
                        == i
                },
            },
            r matches Ok(LockStep::Held(_)) ==> exists|i: int|
                0 <= i < self.updates.unwrap()@.len() && (#[trigger] self.updates.unwrap()@[i]).update.name.0@
                    == name.0@ && (self.updates.unwrap()@[i].lock is Some || exists|k: int|
                    0 <= k < self.loose_ref_guards@.len() && (#[trigger] self.loose_ref_guards@[k]).name.0@
                        == name.0@),
            r matches Ok(LockStep::Acquire { index, .. }) ==> index < self.updates.unwrap()@.len()
                && self.updates.unwrap()@[index as int].update.name.0@ == name.0@
                && self.updates.unwrap()@[index as int].lock is None,
    {
        let updates = match &self.updates {
            Some(updates) => updates,
            None => return Err(Error::Unprepared),
        };
        match find_sole_edit(updates, name) {
            Lookup::Missing => Err(Error::MissingEdit { name: name.to_owned() }),
            Lookup::Ambiguous => Err(Error::AmbiguousEdit { name: name.to_owned() }),
            Lookup::Found(i) => {
                proof {
                    lemma_lookup_found(*updates, name.0@, i as int);
                }
                let edit = &updates[i];
                let held = edit.lock.is_some() || (matches!(edit.update.change, Change::Update { .. })
                    && is_guarded(&self.loose_ref_guards, edit.update.name.0.as_slice()));
                if held {
                    Ok(LockStep::Held(self))
                } else {
                    Ok(LockStep::Acquire { transaction: self, index: i })
                }
            },
        }
    }

    /// Record the outcome of acquiring the lock for the prepared edit at `index`, named `name`:
    /// an update keeps the lock among the transaction's guards of loose references, with its
    /// name, any other edit holds it itself; a failed acquisition is reported with the edit's
    /// name.
    pub fn finish_ref_lock<E>(
        self,
        index: usize,
        name: &FullName,
        acquired: Result<gix_lock::Marker, E>,
    ) -> (r: Result<Self, Error<E>>)
        requires
            self.updates is Some,
            index < self.updates.unwrap()@.len(),
        ensures
            match acquired {
                Err(source) => r matches Err(Error::LockAcquire { source: s, name: n }) && s == source
                    && n.0@ == name.0@,
                Ok(marker) => r matches Ok(t) && lock_recorded(self, t, index as int, marker),
            },
    {
        match acquired {
            Err(source) => Err(Error::LockAcquire { source, name: name.to_owned() }),
            Ok(marker) => {
                let mut updates = self.updates.unwrap();
                let ghost before = updates@;
                let is_update = match &updates[index].update.change {
                    Change::Update { .. } => true,
                    Change::Delete => false,
                };
                let mut guards = self.loose_ref_guards;
                let ghost old_guards = guards@;
                if is_update {
                    let guard_name = updates[index].update.name.to_owned();
                    guards.push(LooseRefGuard { name: guard_name, marker });
                    assert(guards@.drop_last() =~= old_guards);
                } else {
                    updates[index].lock = Some(marker);
                    assert(updates@ =~= before.update(
                        index as int,
                        crate::transaction::Edit { lock: Some(marker), ..before[index as int] },
                    ));
                }
                Ok(Transaction {
                    store: self.store,
                    updates: Some(updates),
                    loose_ref_guards: guards,
                    packed_refs: self.packed_refs,
                })
            },
        }
    }
}

} // verus!
