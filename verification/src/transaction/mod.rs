//! The reflog- and lock-configuration steps of a transaction on loose references.

pub mod ensure_ref_lock;
pub mod reference_path;
pub mod with_reflog_previous_oid;

use vstd::prelude::*;

use crate::hash::ObjectId;
use crate::transaction::with_reflog_previous_oid::Error;

verus! {

/// A lock on a loose-reference path, held until dropped.
#[verifier::external_type_specification]
#[verifier::external_body]
pub struct ExMarker(gix_lock::Marker);

/// The full name of a reference, like `refs/heads/main`.
#[derive(Debug)]
pub struct FullName(pub Vec<u8>);

impl FullName {
    /// A copy of this name.
    pub fn to_owned(&self) -> (name: FullName)
        ensures
            name.0@ == self.0@,
    {
        let mut bytes: Vec<u8> = Vec::new();
        crate::encoding::push_all(&mut bytes, self.0.as_slice());
        FullName(bytes)
    }
}

/// What a reference points to.
#[derive(Debug)]
pub enum Target {
    /// An object, by its id.
    Object(ObjectId),
    /// Another reference, by its name.
    Symbolic(FullName),
}

/// The change an edit makes to a reference.
#[derive(Debug)]
pub enum Change {
    /// Point the reference to `new`.
    Update {
        /// The new target.
        new: Target,
    },
    /// Remove the reference.
    Delete,
}

/// A change to the reference named `name`.
#[derive(Debug)]
pub struct RefEdit {
    /// The change itself.
    pub change: Change,
    /// The name of the reference.
    pub name: FullName,
    /// Whether to apply the change to the reference a symbolic reference points to.
    pub deref: bool,
}

/// An edit as a prepared transaction holds it.
#[derive(Debug)]
pub struct Edit {
    /// The change to make.
    pub update: RefEdit,
    /// The lock on the reference's loose file, if held by this edit.
    pub lock: Option<gix_lock::Marker>,
    /// Set if this update is coming from a symbolic reference and used to make it appear like it is the one that is handled,
    /// instead of the referent reference.
    pub parent_index: Option<usize>,
    /// The previous OID to put into the reflog instead of deriving it from the stored-target constraint.
    pub reflog_previous_oid: Option<ObjectId>,
    /// The previous and new peeled OIDs to put into the reflog for a symbolic-target update.
    pub symbolic_reflog_oids: Option<(ObjectId, ObjectId)>,
    /// Write the reflog even when its previous and new OIDs are equal.
    pub force_reflog_update: bool,
}

impl Edit {
    /// A copy of the name of the edited reference.
    pub fn name(&self) -> (name: Vec<u8>)
        ensures
            name@ == self.update.name.0@,
    {
        let mut bytes: Vec<u8> = Vec::new();
        crate::encoding::push_all(&mut bytes, self.update.name.0.as_slice());
        bytes
    }

    /// The change this edit makes.
    pub fn borrow(&self) -> (update: &RefEdit)
        ensures
            *update == self.update,
    {
        &self.update
    }

    /// The change this edit makes, for changing it.
    pub fn borrow_mut(&mut self) -> (update: &mut RefEdit)
        ensures
            *update == old(self).update,
            *final(self) == (Edit { update: *final(update), ..*old(self) }),
    {
        &mut self.update
    }
}

/// How to handle packed refs during a transaction; `F` finds objects in the object database.
pub enum PackedRefs<F> {
    /// Only propagate deletions of references. This is the default.
    /// This means deleted references are removed from disk if they are loose and from the packed-refs file if they are present.
    DeletionsOnly,
    /// Propagate deletions as well as updates to references which are peeled and contain an object id.
    ///
    /// This means deleted references are removed from disk if they are loose and from the packed-refs file if they are present,
    /// while updates are also written into the loose file as well as into packed-refs, potentially creating an entry.
    DeletionsAndNonSymbolicUpdates(F),
    /// Propagate deletions as well as updates to references which are peeled and contain an object id. Furthermore delete the
    /// reference which is originally updated if it exists. If it doesn't, the new value will be written into the packed ref right away.
    /// Note that this doesn't affect symbolic references at all, which can't be placed into packed refs.
    ///
    /// Thus, this is similar to `DeletionsAndNonSymbolicUpdates`, but removes the loose reference after the update, leaving only their copy
    /// in `packed-refs`.
    DeletionsAndNonSymbolicUpdatesRemoveLooseSourceReference(F),
}

impl<F> Default for PackedRefs<F> {
    fn default() -> (packed_refs: Self)
        ensures
            packed_refs is DeletionsOnly,
    {
        PackedRefs::DeletionsOnly
    }
}

/// A store of references in a git directory.
#[derive(Debug)]
pub struct Store {
    /// The git directory.
    pub git_dir: Vec<u8>,
    /// The directory shared by all worktrees, if this store belongs to a linked worktree.
    pub common_dir: Option<Vec<u8>>,
    /// The namespace that all references of this store are in, if any, as the prefix of
    /// their names, like `refs/namespaces/foo/`.
    pub namespace: Option<Vec<u8>>,
}

/// A lock on the loose file of a reference that an update holds beyond its own lock,
/// with the name of the reference.
#[derive(Debug)]
pub struct LooseRefGuard {
    /// The name of the locked reference.
    pub name: FullName,
    /// The lock.
    pub marker: gix_lock::Marker,
}

/// A transaction on the references of a store.
pub struct Transaction<'s, F> {
    /// The store the transaction edits.
    pub store: &'s Store,
    /// The prepared edits, once the transaction is prepared.
    pub updates: Option<Vec<Edit>>,
    /// Locks on loose references that updates hold beyond their own lock.
    pub loose_ref_guards: Vec<LooseRefGuard>,
    /// How packed refs are handled.
    pub packed_refs: PackedRefs<F>,
}

/// The edit `edit` is for the reference named `name`.
pub open spec fn edit_is_named(edit: Edit, name: Seq<u8>) -> bool {
    edit.update.name.0@ == name
}

/// `edits[i]` is the only edit named `name`.
pub open spec fn sole_edit(edits: Seq<Edit>, name: Seq<u8>, i: int) -> bool {
    &&& 0 <= i < edits.len()
    &&& edit_is_named(edits[i], name)
    &&& forall|j: int| 0 <= j < edits.len() && j != i ==> !edit_is_named(#[trigger] edits[j], name)
}

/// No edit is named `name`.
pub open spec fn no_edit(edits: Seq<Edit>, name: Seq<u8>) -> bool {
    forall|j: int| 0 <= j < edits.len() ==> !edit_is_named(#[trigger] edits[j], name)
}

/// What looking up the prepared edit named `name` finds.
pub enum EditLookup {
    /// The transaction is not prepared.
    Unprepared,
    /// No prepared edit has the name.
    Missing,
    /// More than one prepared edit has the name.
    Ambiguous,
    /// The edit at this index is the only one with the name.
    Found(int),
}

/// What looking up the prepared edit named `name` among `updates` finds.
pub open spec fn edit_lookup(updates: Option<Vec<Edit>>, name: Seq<u8>) -> EditLookup {
    match updates {
        None => EditLookup::Unprepared,
        Some(edits) => if exists|i: int| sole_edit(edits@, name, i) {
            EditLookup::Found(choose|i: int| sole_edit(edits@, name, i))
        } else if no_edit(edits@, name) {
            EditLookup::Missing
        } else {
            EditLookup::Ambiguous
        },
    }
}

/// The edit updates a reference to point to an object.
pub open spec fn is_object_update(edit: Edit) -> bool {
    edit.update.change matches Change::Update { new: Target::Object(_) }
}

/// The edit updates a reference to point to another reference.
pub open spec fn is_symbolic_update(edit: Edit) -> bool {
    edit.update.change matches Change::Update { new: Target::Symbolic(_) }
}

/// `after` is `before` with the prepared edit at `i` replaced by `edit`.
pub open spec fn replaces_edit<'s, F>(
    before: Transaction<'s, F>,
    after: Transaction<'s, F>,
    i: int,
    edit: Edit,
) -> bool {
    &&& after.store == before.store
    &&& after.loose_ref_guards@ == before.loose_ref_guards@
    &&& after.packed_refs == before.packed_refs
    &&& before.updates is Some
    &&& after.updates is Some
    &&& 0 <= i < before.updates.unwrap()@.len()
    &&& after.updates.unwrap()@ == before.updates.unwrap()@.update(i, edit)
}

/// Whether `a` and `b` hold the same bytes.
fn bytes_eq(a: &[u8], b: &[u8]) -> (same: bool)
    ensures
        same == (a@ == b@),
{
    if a.len() != b.len() {
        return false;
    }
    let mut i: usize = 0;
    while i < a.len()
        invariant
            a@.len() == b@.len(),
            i <= a@.len(),
            forall|k: int| 0 <= k < i ==> a@[k] == b@[k],
        decreases a.len() - i,
    {
        if a[i] != b[i] {
            return false;
        }
        i = i + 1;
    }
    assert(a@ =~= b@);
    true
}

/// The outcome of looking up an edit by name in a prepared transaction.
pub(crate) enum Lookup {
    Found(usize),
    Missing,
    Ambiguous,
}

/// Find the only edit named `name`.
#[verifier::spinoff_prover]
pub(crate) fn find_sole_edit(edits: &Vec<Edit>, name: &FullName) -> (r: Lookup)
    ensures
        match r {
            Lookup::Found(i) => sole_edit(edits@, name.0@, i as int),
            Lookup::Missing => no_edit(edits@, name.0@),
            Lookup::Ambiguous => !no_edit(edits@, name.0@) && !exists|i: int|
                sole_edit(edits@, name.0@, i),
        },
{
    let mut found: Option<usize> = None;
    let mut i: usize = 0;
    while i < edits.len()
        invariant
            i <= edits@.len(),
            match found {
                None => forall|j: int| 0 <= j < i ==> !edit_is_named(#[trigger] edits@[j], name.0@),
                Some(k) => k < i && edit_is_named(edits@[k as int], name.0@) && forall|j: int|
                    0 <= j < i && j != k ==> !edit_is_named(#[trigger] edits@[j], name.0@),
            },
        decreases edits.len() - i,
    {
        if bytes_eq(edits[i].update.name.0.as_slice(), name.0.as_slice()) {
            match found {
                Some(k) => {
                    proof {
                        assert(edit_is_named(edits@[k as int], name.0@));
                        assert(edit_is_named(edits@[i as int], name.0@));
                        assert forall|m: int| !sole_edit(edits@, name.0@, m) by {
                            if sole_edit(edits@, name.0@, m) {
                                if m != k as int {
                                    assert(!edit_is_named(edits@[k as int], name.0@));
                                } else {
                                    assert(!edit_is_named(edits@[i as int], name.0@));
                                }
                            }
                        }
                    }
                    return Lookup::Ambiguous;
                },
                None => {
                    found = Some(i);
                },
            }
        }
        i = i + 1;
    }
    match found {
        None => Lookup::Missing,
        Some(k) => Lookup::Found(k),
    }
}

/// A found edit is the one `edit_lookup` names.
pub(crate) proof fn lemma_lookup_found(edits: Vec<Edit>, name: Seq<u8>, i: int)
    requires
        sole_edit(edits@, name, i),
    ensures
        edit_lookup(Some(edits), name) == EditLookup::Found(i),
{
    let c = choose|c: int| sole_edit(edits@, name, c);
    if c != i {
        assert(!edit_is_named(edits@[c], name));
    }
}

impl Store {
    /// Open a transaction with the given `edits`, and determine how to fail if a `lock` cannot be obtained.
    /// A snapshot of packed references will be obtained automatically if needed to fulfill this transaction
    /// and will be provided as result of a successful transaction. Note that upon transaction failure, packed-refs
    /// will never have been altered.
    ///
    /// The transaction inherits the parent namespace.
    pub fn transaction<F>(&self) -> (t: Transaction<'_, F>)
        ensures
            t.store == self,
            t.updates is None,
            t.loose_ref_guards@.len() == 0,
            t.packed_refs is DeletionsOnly,
    {
        Transaction {
            store: self,
            updates: None,
            loose_ref_guards: Vec::new(),
            packed_refs: PackedRefs::default(),
        }
    }
}

impl<'s, F> Transaction<'s, F> {
    /// Configure the way packed refs are handled during the transaction
    pub fn packed_refs(self, packed_refs: PackedRefs<F>) -> (t: Self)
        ensures
            t.packed_refs == packed_refs,
            t.store == self.store,
            t.updates == self.updates,
            t.loose_ref_guards == self.loose_ref_guards,
    {
        Transaction {
            store: self.store,
            updates: self.updates,
            loose_ref_guards: self.loose_ref_guards,
            packed_refs,
        }
    }
}

/// What a reflog-configuration builder on the edit named `name` owes: the lookup
/// errors, the error for an edit of the wrong kind (a symbolic update if `symbolic`,
/// an object update otherwise), and on success the transaction with the found edit
/// replaced by `changed` applied to it.
pub open spec fn reflog_builder_outcome<'s, F>(
    before: Transaction<'s, F>,
    result: Result<Transaction<'s, F>, Error>,
    name: Seq<u8>,
    symbolic: bool,
    changed: spec_fn(Edit) -> Edit,
) -> bool {
    match edit_lookup(before.updates, name) {
        EditLookup::Unprepared => result matches Err(Error::Unprepared),
        EditLookup::Missing => result matches Err(Error::MissingEdit { name: n }) && n.0@ == name,
        EditLookup::Ambiguous => result matches Err(Error::AmbiguousEdit { name: n }) && n.0@ == name,
        EditLookup::Found(i) => {
            let edit = before.updates.unwrap()@[i];
            if symbolic && is_symbolic_update(edit) || !symbolic && is_object_update(edit) {
                result matches Ok(after) && replaces_edit(before, after, i, changed(edit))
            } else if symbolic {
                result matches Err(Error::NotSymbolicUpdate { name: n }) && n.0@ == name
            } else {
                result matches Err(Error::NotObjectUpdate { name: n }) && n.0@ == name
            }
        },
    }
}

impl<'s, F> Transaction<'s, F> {
    /// Use `previous_oid` as the previous object ID in the reflog entry for the prepared object update named `name`.
    ///
    /// This allows the reflog value to remain independent of the stored-target constraint used during
    /// preparation. It is useful when replacing a symbolic reference without dereferencing it:
    /// the constraint can compare the symbolic target while the reflog records the symbolic reference's peeled object ID.
    pub fn with_reflog_previous_oid(self, name: &FullName, previous_oid: ObjectId) -> (r: Result<Self, Error>)
        ensures
            reflog_builder_outcome(
                self,
                r,
                name.0@,
                false,
                |e: Edit| Edit { reflog_previous_oid: Some(previous_oid), ..e },
            ),
            r matches Ok(t) ==> (edit_lookup(self.updates, name.0@) matches EditLookup::Found(i) && {
                let (e0, e1) = (self.updates.unwrap()@[i], t.updates.unwrap()@[i]);
                &&& t.updates.unwrap()@.len() == self.updates.unwrap()@.len()
                &&& e1.update == e0.update
                &&& e1.update.name.0@ == name.0@
                &&& e1.lock == e0.lock
                &&& e1.parent_index == e0.parent_index
                &&& e1.reflog_previous_oid == Some(previous_oid)
                &&& e1.symbolic_reflog_oids == e0.symbolic_reflog_oids
                &&& e1.force_reflog_update == e0.force_reflog_update
            }),
    {
        let i = match self.prepared_object_update(name) {
            Ok(i) => i,
            Err(e) => return Err(e),
        };
        let mut updates = match self.updates {
            Some(updates) => updates,
            None => return Err(Error::Unprepared),
        };
        let ghost before = updates@;
        updates[i].reflog_previous_oid = Some(previous_oid);
        assert(updates@ =~= before.update(i as int, Edit { reflog_previous_oid: Some(previous_oid), ..before[i as int] }));
        Ok(Transaction {
            store: self.store,
            updates: Some(updates),
            loose_ref_guards: self.loose_ref_guards,
            packed_refs: self.packed_refs,
        })
    }

    /// Write a reflog entry for the prepared object update named `name` even if its previous and new OIDs are equal.
    ///
    /// This is useful when the stored representation changes, such as replacing a symbolic reference with a direct
    /// reference to the same object. The ref update remains subject to the constraint supplied during preparation.
    pub fn force_reflog_update(self, name: &FullName) -> (r: Result<Self, Error>)
        ensures
            reflog_builder_outcome(
                self,
                r,
                name.0@,
                false,
                |e: Edit| Edit { force_reflog_update: true, ..e },
            ),
            r matches Ok(t) ==> (edit_lookup(self.updates, name.0@) matches EditLookup::Found(i) && {
                let (e0, e1) = (self.updates.unwrap()@[i], t.updates.unwrap()@[i]);
                &&& t.updates.unwrap()@.len() == self.updates.unwrap()@.len()
                &&& e1.update == e0.update
                &&& e1.update.name.0@ == name.0@
                &&& e1.lock == e0.lock
                &&& e1.parent_index == e0.parent_index
                &&& e1.force_reflog_update
                &&& e1.reflog_previous_oid == e0.reflog_previous_oid
                &&& e1.symbolic_reflog_oids == e0.symbolic_reflog_oids
            }),
    {
        let i = match self.prepared_object_update(name) {
            Ok(i) => i,
            Err(e) => return Err(e),
        };
        let mut updates = match self.updates {
            Some(updates) => updates,
            None => return Err(Error::Unprepared),
        };
        let ghost before = updates@;
        updates[i].force_reflog_update = true;
        assert(updates@ =~= before.update(i as int, Edit { force_reflog_update: true, ..before[i as int] }));
        Ok(Transaction {
            store: self.store,
            updates: Some(updates),
            loose_ref_guards: self.loose_ref_guards,
            packed_refs: self.packed_refs,
        })
    }

    /// Write the reflog for the prepared symbolic update named `name` with its peeled object IDs.
    ///
    /// Symbolic targets carry no object IDs themselves, so callers that have peeled the previous and new targets may
    /// provide both values without weakening the stored-target constraint supplied during preparation.
    /// Unlike object updates, an explicit symbolic reflog update is written even when both targets peel to the same object.
    pub fn with_symbolic_reflog(self, name: &FullName, previous_oid: ObjectId, new_oid: ObjectId) -> (r: Result<
        Self,
        Error,
    >)
        ensures
            reflog_builder_outcome(
                self,
                r,
                name.0@,
                true,
                |e: Edit| Edit { symbolic_reflog_oids: Some((previous_oid, new_oid)), ..e },
            ),
            r matches Ok(t) ==> (edit_lookup(self.updates, name.0@) matches EditLookup::Found(i) && {
                let (e0, e1) = (self.updates.unwrap()@[i], t.updates.unwrap()@[i]);
                &&& t.updates.unwrap()@.len() == self.updates.unwrap()@.len()
                &&& e1.update == e0.update
                &&& e1.update.name.0@ == name.0@
                &&& e1.lock == e0.lock
                &&& e1.parent_index == e0.parent_index
                &&& e1.symbolic_reflog_oids == Some((previous_oid, new_oid))
                &&& e1.reflog_previous_oid == e0.reflog_previous_oid
                &&& e1.force_reflog_update == e0.force_reflog_update
            }),
    {
        let i = match self.prepared_symbolic_update(name) {
            Ok(i) => i,
            Err(e) => return Err(e),
        };
        let mut updates = match self.updates {
            Some(updates) => updates,
            None => return Err(Error::Unprepared),
        };
        let ghost before = updates@;
        updates[i].symbolic_reflog_oids = Some((previous_oid, new_oid));
        assert(updates@ =~= before.update(
            i as int,
            Edit { symbolic_reflog_oids: Some((previous_oid, new_oid)), ..before[i as int] },
        ));
        Ok(Transaction {
            store: self.store,
            updates: Some(updates),
            loose_ref_guards: self.loose_ref_guards,
            packed_refs: self.packed_refs,
        })
    }

    /// Find the only prepared edit named `name`, which must be an object update.
    fn prepared_object_update(&self, name: &FullName) -> (r: Result<usize, Error>)
        ensures
            prepared_kind_outcome(self.updates, name.0@, false, r),
    {
        let i = match self.prepared_update(name) {
            Ok(i) => i,
            Err(e) => return Err(e),
        };
        let updates = self.updates.as_ref().unwrap();
        if matches!(updates[i].update.change, Change::Update { new: Target::Object(_) }) {
            Ok(i)
        } else {
            Err(Error::NotObjectUpdate { name: name.to_owned() })
        }
    }

    /// Find the only prepared edit named `name`, which must be a symbolic update.
    fn prepared_symbolic_update(&self, name: &FullName) -> (r: Result<usize, Error>)
        ensures
            prepared_kind_outcome(self.updates, name.0@, true, r),
    {
        let i = match self.prepared_update(name) {
            Ok(i) => i,
            Err(e) => return Err(e),
        };
        let updates = self.updates.as_ref().unwrap();
        if matches!(updates[i].update.change, Change::Update { new: Target::Symbolic(_) }) {
            Ok(i)
        } else {
            Err(Error::NotSymbolicUpdate { name: name.to_owned() })
        }
    }

    /// Find the only prepared edit named `name`.
    fn prepared_update(&self, name: &FullName) -> (r: Result<usize, Error>)
        ensures
            match edit_lookup(self.updates, name.0@) {
                EditLookup::Unprepared => r matches Err(Error::Unprepared),
                EditLookup::Missing => r matches Err(Error::MissingEdit { name: n }) && n.0@ == name.0@,
                EditLookup::Ambiguous => r matches Err(Error::AmbiguousEdit { name: n }) && n.0@
                    == name.0@,
                EditLookup::Found(i) => r matches Ok(k) && k == i,
            },
    {
        let updates = match &self.updates {
            Some(updates) => updates,
            None => return Err(Error::Unprepared),
        };
        match find_sole_edit(updates, name) {
            Lookup::Missing => Err(Error::MissingEdit { name: name.to_owned() }),
            Lookup::Ambiguous => Err(Error::AmbiguousEdit { name: name.to_owned() }),
            Lookup::Found(i) => {
                proof {
                    lemma_lookup_found(*updates, name.0@, i as int);
                }
                Ok(i)
            },
        }
    }
}

/// What finding the only prepared edit named `name`, of the kind `symbolic` asks for, owes.
pub open spec fn prepared_kind_outcome(
    updates: Option<Vec<Edit>>,
    name: Seq<u8>,
    symbolic: bool,
    r: Result<usize, Error>,
) -> bool {
    match edit_lookup(updates, name) {
        EditLookup::Unprepared => r matches Err(Error::Unprepared),
        EditLookup::Missing => r matches Err(Error::MissingEdit { name: n }) && n.0@ == name,
        EditLookup::Ambiguous => r matches Err(Error::AmbiguousEdit { name: n }) && n.0@ == name,
        EditLookup::Found(i) => {
            let edit = updates.unwrap()@[i];
            if symbolic && is_symbolic_update(edit) || !symbolic && is_object_update(edit) {
                r matches Ok(k) && k == i
            } else if symbolic {
                r matches Err(Error::NotSymbolicUpdate { name: n }) && n.0@ == name
            } else {
                r matches Err(Error::NotObjectUpdate { name: n }) && n.0@ == name
            }
        },
    }
}

/// At most one edit is the sole edit of a name.
proof fn lemma_sole_edit_unique(edits: Seq<Edit>, name: Seq<u8>, a: int, b: int)
    requires
        sole_edit(edits, name, a),
        sole_edit(edits, name, b),
    ensures
        a == b,
{
    if a != b {
        assert(!edit_is_named(edits[b], name));
    }
}

/// Looking up edits by name depends on their names alone.
#[verifier::spinoff_prover]
proof fn lemma_lookup_by_names(before: Vec<Edit>, after: Vec<Edit>, name: Seq<u8>)
    requires
        after@.len() == before@.len(),
        forall|j: int| 0 <= j < before@.len() ==> (#[trigger] after@[j]).update.name == before@[j].update.name,
    ensures
        edit_lookup(Some(after), name) == edit_lookup(Some(before), name),
{
    assert forall|j: int| 0 <= j < before@.len() implies edit_is_named(#[trigger] after@[j], name)
        == edit_is_named(before@[j], name) by {
        assert(after@[j].update.name == before@[j].update.name);
    }
    assert forall|i: int| sole_edit(after@, name, i) implies sole_edit(before@, name, i) by {
        assert forall|j: int| 0 <= j < before@.len() && j != i implies !edit_is_named(
            #[trigger] before@[j],
            name,
        ) by {
            assert(!edit_is_named(after@[j], name));
        }
    }
    assert forall|i: int| sole_edit(before@, name, i) implies sole_edit(after@, name, i) by {
        assert(edit_is_named(after@[i], name));
        assert forall|j: int| 0 <= j < before@.len() && j != i implies !edit_is_named(
            #[trigger] after@[j],
            name,
        ) by {
            assert(!edit_is_named(before@[j], name));
        }
    }
    assert(no_edit(after@, name) == no_edit(before@, name)) by {
        if no_edit(before@, name) {
            assert forall|j: int| 0 <= j < after@.len() implies !edit_is_named(#[trigger] after@[j], name) by {
                assert(!edit_is_named(before@[j], name));
            }
        }
        if no_edit(after@, name) {
            assert forall|j: int| 0 <= j < before@.len() implies !edit_is_named(#[trigger] before@[j], name) by {
                assert(!edit_is_named(after@[j], name));
            }
        }
    }
    if exists|i: int| sole_edit(before@, name, i) {
        let a = choose|i: int| sole_edit(after@, name, i);
        let b = choose|i: int| sole_edit(before@, name, i);
        lemma_sole_edit_unique(before@, name, a, b);
    }
}

/// Configuring the reflog of an edit keeps the change of every prepared edit, and with
/// it the constraint it is subject to, and so looking up any edit by name finds what it
/// found before.
pub proof fn lemma_reflog_configuration_keeps_changes<'s, F>(
    before: Transaction<'s, F>,
    after: Transaction<'s, F>,
    name: Seq<u8>,
    symbolic: bool,
    changed: spec_fn(Edit) -> Edit,
    other: Seq<u8>,
)
    requires
        reflog_builder_outcome(before, Ok(after), name, symbolic, changed),
        forall|e: Edit| (#[trigger] changed(e)).update == e.update,
    ensures
        before.updates is Some,
        after.updates is Some,
        after.updates.unwrap()@.len() == before.updates.unwrap()@.len(),
        forall|j: int|
            0 <= j < before.updates.unwrap()@.len() ==> (#[trigger] after.updates.unwrap()@[j]).update
                == before.updates.unwrap()@[j].update,
        edit_lookup(after.updates, other) == edit_lookup(before.updates, other),
{
    if let EditLookup::Found(i) = edit_lookup(before.updates, name) {
        let edits = before.updates.unwrap()@;
        assert(changed(edits[i]).update == edits[i].update);
        assert forall|j: int| 0 <= j < edits.len() implies (#[trigger] after.updates.unwrap()@[j]).update
            == edits[j].update by {
            if j == i {
            }
        }
        lemma_lookup_by_names(before.updates.unwrap(), after.updates.unwrap(), other);
    }
}

/// One of `guards` is for the reference named `name`.
pub open spec fn guarded(guards: Seq<LooseRefGuard>, name: Seq<u8>) -> bool {
    exists|k: int| 0 <= k < guards.len() && (#[trigger] guards[k]).name.0@ == name
}

/// The transaction holds the lock of `edit`'s reference: the edit holds it itself, or
/// the edit is an update and one of `guards` is for its reference.
pub open spec fn holds_lock(edit: Edit, guards: Seq<LooseRefGuard>) -> bool {
    edit.lock is Some || (edit.update.change is Update && guarded(guards, edit.update.name.0@))
}

/// `after` is `before` with `marker`, the lock for the prepared edit at `index`, recorded:
/// among the guards, with the edit's name, if the edit is an update, and in the edit
/// itself otherwise.
pub open spec fn lock_recorded<'s, F>(
    before: Transaction<'s, F>,
    after: Transaction<'s, F>,
    index: int,
    marker: gix_lock::Marker,
) -> bool {
    let edit = before.updates.unwrap()@[index];
    &&& after.store == before.store
    &&& after.packed_refs == before.packed_refs
    &&& if edit.update.change is Update {
        &&& after.updates == before.updates
        &&& after.loose_ref_guards@.len() == before.loose_ref_guards@.len() + 1
        &&& after.loose_ref_guards@.drop_last() == before.loose_ref_guards@
        &&& after.loose_ref_guards@.last().name.0@ == edit.update.name.0@
        &&& after.loose_ref_guards@.last().marker == marker
    } else {
        &&& after.loose_ref_guards@ == before.loose_ref_guards@
        &&& after.updates is Some
        &&& after.updates.unwrap()@ == before.updates.unwrap()@.update(
            index,
            Edit { lock: Some(marker), ..edit },
        )
    }
}

/// Whether one of `guards` is for the reference named `name`.
pub(crate) fn is_guarded(guards: &Vec<LooseRefGuard>, name: &[u8]) -> (yes: bool)
    ensures
        yes == guarded(guards@, name@),
{
    let mut k: usize = 0;
    while k < guards.len()
        invariant
            k <= guards@.len(),
            forall|j: int| 0 <= j < k ==> (#[trigger] guards@[j]).name.0@ != name@,
        decreases guards.len() - k,
    {
        if bytes_eq(guards[k].name.0.as_slice(), name) {
            assert(guards@[k as int].name.0@ == name@);
            return true;
        }
        k = k + 1;
    }
    false
}

/// Once the lock for the edit named `name` has been recorded, the transaction holds it:
/// looking the edit up by its name finds it again, holding the lock in itself or, for an
/// update, among the guards, so that ensuring the lock once more leaves the transaction
/// unchanged.
pub proof fn lemma_recorded_lock_is_held<'s, F>(
    before: Transaction<'s, F>,
    after: Transaction<'s, F>,
    i: int,
    marker: gix_lock::Marker,
    name: Seq<u8>,
)
    requires
        edit_lookup(before.updates, name) == EditLookup::Found(i),
        lock_recorded(before, after, i, marker),
    ensures
        edit_lookup(after.updates, name) == EditLookup::Found(i),
        holds_lock(after.updates.unwrap()@[i], after.loose_ref_guards@),
{
    let edits = before.updates.unwrap()@;
    let c = choose|c: int| sole_edit(edits, name, c);
    assert(sole_edit(edits, name, c));
    if edits[i].update.change is Update {
        let guards = after.loose_ref_guards@;
        let last = guards.len() - 1;
        assert(guards[last].name.0@ == edits[i].update.name.0@);
    } else {
        assert forall|j: int| 0 <= j < edits.len() implies (#[trigger] after.updates.unwrap()@[j]).update.name
            == edits[j].update.name by {
            if j == i {
            }
        }
        lemma_lookup_by_names(before.updates.unwrap(), after.updates.unwrap(), name);
    }
}

/// Looking up a prepared edit by name compares whole names, byte for byte: an edit whose
/// name merely starts with the requested one is a different edit. If the edit at `i` is the
/// only one with exactly the name, it is found; only an edit with exactly the name is ever
/// found; the lookup misses only if no edit has exactly the name, and is ambiguous only if
/// two edits have exactly the name.
pub proof fn lemma_lookup_is_by_exact_name(edits: Vec<Edit>, name: Seq<u8>, i: int)
    ensures
        (0 <= i < edits@.len() && edits@[i].update.name.0@ == name && forall|j: int|
            0 <= j < edits@.len() && j != i ==> (#[trigger] edits@[j]).update.name.0@ != name)
            ==> edit_lookup(Some(edits), name) == EditLookup::Found(i),
        edit_lookup(Some(edits), name) matches EditLookup::Found(k) ==> 0 <= k < edits@.len()
            && edits@[k].update.name.0@ == name,
        edit_lookup(Some(edits), name) is Missing ==> forall|j: int|
            0 <= j < edits@.len() ==> (#[trigger] edits@[j]).update.name.0@ != name,
        edit_lookup(Some(edits), name) is Ambiguous ==> exists|a: int, b: int|
            0 <= a < b < edits@.len() && (#[trigger] edits@[a]).update.name.0@ == name && (
            #[trigger] edits@[b]).update.name.0@ == name,
{
    if 0 <= i < edits@.len() && edits@[i].update.name.0@ == name && forall|j: int|
        0 <= j < edits@.len() && j != i ==> (#[trigger] edits@[j]).update.name.0@ != name {
        assert(sole_edit(edits@, name, i));
        lemma_lookup_found(edits, name, i);
    }
    if edit_lookup(Some(edits), name) is Ambiguous {
        let a = choose|a: int| 0 <= a < edits@.len() && edit_is_named(edits@[a], name);
        assert(!no_edit(edits@, name));
        assert(0 <= a < edits@.len() && edit_is_named(edits@[a], name));
        assert(!sole_edit(edits@, name, a));
        let b = choose|b: int| 0 <= b < edits@.len() && b != a && edit_is_named(#[trigger] edits@[b], name);
        if a < b {
            assert(edits@[a].update.name.0@ == name && edits@[b].update.name.0@ == name);
        } else {
            assert(edits@[b].update.name.0@ == name && edits@[a].update.name.0@ == name);
        }
    }
}

/// Recording the lock of one prepared edit never makes another edit hold a lock: an edit
/// with a different name that held no lock and had no guard of its name before still holds
/// none, so ensuring its lock still asks for the lock to be acquired.
pub proof fn lemma_recording_a_lock_leaves_others_unlocked<'s, F>(
    before: Transaction<'s, F>,
    after: Transaction<'s, F>,
    i: int,
    marker: gix_lock::Marker,
    name: Seq<u8>,
    j: int,
)
    requires
        lock_recorded(before, after, i, marker),
        0 <= i < before.updates.unwrap()@.len(),
        edit_lookup(before.updates, name) == EditLookup::Found(j),
        before.updates.unwrap()@[j].update.name.0@ != before.updates.unwrap()@[i].update.name.0@,
        before.updates.unwrap()@[j].lock is None,
        forall|k: int|
            0 <= k < before.loose_ref_guards@.len() ==> (#[trigger] before.loose_ref_guards@[k]).name.0@
                != name,
    ensures
        edit_lookup(after.updates, name) == EditLookup::Found(j),
        !holds_lock(after.updates.unwrap()@[j], after.loose_ref_guards@),
{
    let edits = before.updates.unwrap()@;
    let c = choose|c: int| sole_edit(edits, name, c);
    assert(sole_edit(edits, name, c));
    assert(edits[j].update.name.0@ == name);
    if edits[i].update.change is Update {
        let guards = after.loose_ref_guards@;
        assert forall|k: int| 0 <= k < guards.len() implies (#[trigger] guards[k]).name.0@ != name by {
            if k < guards.len() - 1 {
                assert(guards[k] == guards.drop_last()[k]);
            }
        }
    } else {
        assert(j != i);
        assert forall|m: int| 0 <= m < edits.len() implies (#[trigger] after.updates.unwrap()@[m]).update.name
            == edits[m].update.name by {
            if m == i {
            }
        }
        lemma_lookup_by_names(before.updates.unwrap(), after.updates.unwrap(), name);
        assert(after.loose_ref_guards@ == before.loose_ref_guards@);
    }
}

} // verus!
