use gix_index_ref::hash::{HashKind, ObjectId};
use gix_index_ref::transaction::ensure_ref_lock::{self, LockStep};
use gix_index_ref::transaction::with_reflog_previous_oid::Error;
use gix_index_ref::transaction::{Change, Edit, FullName, PackedRefs, RefEdit, Store, Target, Transaction};

fn name(s: &str) -> FullName {
    FullName(s.as_bytes().to_vec())
}

fn oid(byte: u8) -> ObjectId {
    ObjectId::from_bytes_or_panic(&[byte; 20])
}

fn edit(n: &str, change: Change) -> Edit {
    Edit {
        update: RefEdit { change, name: name(n), deref: false },
        lock: None,
        parent_index: None,
        reflog_previous_oid: None,
        symbolic_reflog_oids: None,
        force_reflog_update: false,
    }
}

fn store() -> Store {
    Store { git_dir: b".git".to_vec(), common_dir: None, namespace: None }
}

fn prepared<'s>(store: &'s Store) -> Transaction<'s, ()> {
    let mut t = store.transaction::<()>();
    t.updates = Some(vec![
        edit("refs/heads/main", Change::Update { new: Target::Object(oid(1)) }),
        edit("HEAD", Change::Update { new: Target::Symbolic(name("refs/heads/main")) }),
        edit("refs/tags/old", Change::Delete),
        edit("refs/heads/twice", Change::Delete),
        edit("refs/heads/twice", Change::Update { new: Target::Object(oid(2)) }),
    ]);
    t
}

fn err_name(e: &Error) -> Option<Vec<u8>> {
    match e {
        Error::Unprepared => None,
        Error::MissingEdit { name }
        | Error::AmbiguousEdit { name }
        | Error::NotObjectUpdate { name }
        | Error::NotSymbolicUpdate { name } => Some(name.0.clone()),
    }
}

#[test]
fn new_transactions_are_unprepared_and_only_propagate_deletions() {
    let store = store();
    let t = store.transaction::<()>();
    assert!(t.updates.is_none());
    assert!(t.loose_ref_guards.is_empty());
    assert!(matches!(t.packed_refs, PackedRefs::DeletionsOnly));
    assert!(std::ptr::eq(t.store, &store));
    let t = t.packed_refs(PackedRefs::DeletionsAndNonSymbolicUpdates(()));
    assert!(matches!(t.packed_refs, PackedRefs::DeletionsAndNonSymbolicUpdates(())));
    let err = t.force_reflog_update(&name("refs/heads/main")).err().unwrap();
    assert!(matches!(err, Error::Unprepared));
    let t = store.transaction::<()>();
    assert!(matches!(t.with_reflog_previous_oid(&name("x"), oid(0)), Err(Error::Unprepared)));
    let t = store.transaction::<()>();
    assert!(matches!(t.with_symbolic_reflog(&name("x"), oid(0), oid(1)), Err(Error::Unprepared)));
}

#[test]
fn reflog_builders_configure_the_named_edit_only() {
    let store = store();
    let t = prepared(&store).with_reflog_previous_oid(&name("refs/heads/main"), oid(9)).unwrap();
    let t = t.force_reflog_update(&name("refs/heads/main")).unwrap();
    let t = t.with_symbolic_reflog(&name("HEAD"), oid(3), oid(4)).unwrap();
    let edits = t.updates.as_ref().unwrap();
    assert_eq!(edits.len(), 5);
    assert_eq!(edits[0].reflog_previous_oid.as_ref().unwrap().as_bytes(), &[9; 20]);
    assert!(edits[0].force_reflog_update);
    assert!(edits[0].symbolic_reflog_oids.is_none());
    let (prev, new) = edits[1].symbolic_reflog_oids.as_ref().unwrap();
    assert_eq!((prev.as_bytes(), new.as_bytes()), (&[3u8; 20][..], &[4u8; 20][..]));
    assert!(!edits[1].force_reflog_update);
    assert!(edits[1].reflog_previous_oid.is_none());
    assert!(edits[2..].iter().all(|e| !e.force_reflog_update && e.reflog_previous_oid.is_none()));
    assert_eq!(edits[0].name(), b"refs/heads/main".to_vec());
    assert!(matches!(edits[0].borrow().change, Change::Update { new: Target::Object(_) }));
}

#[test]
fn reflog_builders_report_each_error() {
    let store = store();
    let e = prepared(&store).force_reflog_update(&name("refs/heads/none")).err().unwrap();
    assert!(matches!(e, Error::MissingEdit { .. }));
    assert_eq!(err_name(&e), Some(b"refs/heads/none".to_vec()));
    let e = prepared(&store).with_reflog_previous_oid(&name("refs/heads/twice"), oid(1)).err().unwrap();
    assert!(matches!(e, Error::AmbiguousEdit { .. }));
    assert_eq!(err_name(&e), Some(b"refs/heads/twice".to_vec()));
    let e = prepared(&store).force_reflog_update(&name("HEAD")).err().unwrap();
    assert!(matches!(e, Error::NotObjectUpdate { .. }));
    let e = prepared(&store).with_reflog_previous_oid(&name("refs/tags/old"), oid(1)).err().unwrap();
    assert!(matches!(e, Error::NotObjectUpdate { .. }));
    assert_eq!(err_name(&e), Some(b"refs/tags/old".to_vec()));
    let e = prepared(&store).with_symbolic_reflog(&name("refs/heads/main"), oid(1), oid(2)).err().unwrap();
    assert!(matches!(e, Error::NotSymbolicUpdate { .. }));
    let e = prepared(&store).with_symbolic_reflog(&name("refs/tags/old"), oid(1), oid(2)).err().unwrap();
    assert!(matches!(e, Error::NotSymbolicUpdate { .. }));
}

#[test]
fn ensure_ref_lock_reports_lookup_errors() {
    let store = store();
    let t = store.transaction::<()>();
    assert!(matches!(t.ensure_ref_lock::<&str>(&name("HEAD")), Err(ensure_ref_lock::Error::Unprepared)));
    assert!(matches!(
        prepared(&store).ensure_ref_lock::<&str>(&name("refs/none")),
        Err(ensure_ref_lock::Error::MissingEdit { .. })
    ));
    assert!(matches!(
        prepared(&store).ensure_ref_lock::<&str>(&name("refs/heads/twice")),
        Err(ensure_ref_lock::Error::AmbiguousEdit { .. })
    ));
}

#[test]
fn ensure_ref_lock_asks_for_a_missing_lock_and_reports_acquisition_errors() {
    let store = store();
    let step = prepared(&store).ensure_ref_lock::<&str>(&name("refs/tags/old")).unwrap();
    let (t, index) = match step {
        LockStep::Acquire { transaction, index } => (transaction, index),
        LockStep::Held(_) => panic!("no lock is held yet"),
    };
    assert_eq!(index, 2);
    match t.finish_ref_lock(index, &name("refs/tags/old"), Err("already locked")) {
        Err(ensure_ref_lock::Error::LockAcquire { source, name }) => {
            assert_eq!(source, "already locked");
            assert_eq!(name.0, b"refs/tags/old".to_vec());
        }
        _ => panic!("the acquisition error is reported"),
    }
}

fn lock_marker(tag: &str) -> gix_lock::Marker {
    let dir = std::path::PathBuf::from("/tmp");
    gix_lock::Marker::acquire_to_hold_resource(
        dir.join(format!("gix-index-ref-test-{tag}-{:?}", std::time::SystemTime::now())),
        gix_lock::acquire::Fail::Immediately,
        None,
        0,
    )
    .expect("a fresh lock")
}

#[test]
fn acquired_locks_are_kept_by_the_edit_or_the_transaction() {
    let store = store();
    let t = prepared(&store);
    let t = match t.ensure_ref_lock::<gix_error::Error>(&name("refs/tags/old")).unwrap() {
        LockStep::Acquire { transaction, index } => {
            transaction.finish_ref_lock::<gix_error::Error>(index, &name("refs/tags/old"), Ok(lock_marker("delete"))).unwrap()
        }
        LockStep::Held(_) => panic!("no lock is held yet"),
    };
    assert!(t.updates.as_ref().unwrap()[2].lock.is_some());
    assert!(t.loose_ref_guards.is_empty());
    let t = match t.ensure_ref_lock::<gix_error::Error>(&name("refs/tags/old")).unwrap() {
        LockStep::Held(t) => t,
        LockStep::Acquire { .. } => panic!("the lock is held"),
    };
    let t = match t.ensure_ref_lock::<gix_error::Error>(&name("refs/heads/main")).unwrap() {
        LockStep::Acquire { transaction, index } => {
            assert_eq!(index, 0);
            transaction.finish_ref_lock::<gix_error::Error>(index, &name("refs/heads/main"), Ok(lock_marker("update"))).unwrap()
        }
        LockStep::Held(_) => panic!("no lock is held yet"),
    };
    assert!(t.updates.as_ref().unwrap()[0].lock.is_none());
    assert_eq!(t.loose_ref_guards.len(), 1);
    assert_eq!(t.loose_ref_guards[0].name.0, b"refs/heads/main".to_vec());
    let t = match t.ensure_ref_lock::<gix_error::Error>(&name("refs/heads/main")).unwrap() {
        LockStep::Held(t) => t,
        LockStep::Acquire { .. } => panic!("the update's lock is held among the guards"),
    };
    assert_eq!(t.loose_ref_guards.len(), 1);
    let _ = HashKind::Sha1;
}

#[test]
fn lock_paths_are_relative_to_the_git_dir_and_in_the_namespace() {
    let plain = store();
    let (base, relative) = plain.reference_path_with_base(&name("refs/heads/main"));
    assert_eq!(base, b".git".to_vec());
    assert_eq!(relative, b"refs/heads/main".to_vec());
    let namespaced = Store {
        git_dir: b"/repo/.git".to_vec(),
        common_dir: None,
        namespace: Some(b"refs/namespaces/foo/".to_vec()),
    };
    let (base, relative) = namespaced.reference_path_with_base(&name("refs/heads/main"));
    assert_eq!(base, b"/repo/.git".to_vec());
    assert_eq!(relative, b"refs/namespaces/foo/refs/heads/main".to_vec());
}

#[test]
fn linked_worktrees_keep_shared_refs_in_the_common_dir() {
    let store = Store { git_dir: b"/c/worktrees/w1".to_vec(), common_dir: Some(b"/c".to_vec()), namespace: None };
    let path = |n: &str| {
        let (base, relative) = store.reference_path_with_base(&name(n));
        (String::from_utf8(base).unwrap(), String::from_utf8(relative).unwrap())
    };
    let pair = |a: &str, b: &str| (a.to_string(), b.to_string());
    assert_eq!(path("refs/heads/main"), pair("/c", "refs/heads/main"));
    assert_eq!(path("refs/tags/v1"), pair("/c", "refs/tags/v1"));
    assert_eq!(path("refs/notes/commits"), pair("/c", "refs/notes/commits"));
    assert_eq!(path("refs/stash"), pair("/c", "refs/stash"));
    assert_eq!(path("HEAD"), pair("/c/worktrees/w1", "HEAD"));
    assert_eq!(path("refs/bisect/bad"), pair("/c/worktrees/w1", "refs/bisect/bad"));
    assert_eq!(path("refs/worktree/x"), pair("/c/worktrees/w1", "refs/worktree/x"));
    assert_eq!(path("refs/rewritten/y"), pair("/c/worktrees/w1", "refs/rewritten/y"));
    assert_eq!(path("main-worktree/HEAD"), pair("/c", "HEAD"));
    assert_eq!(path("main-worktree/refs/bisect/x"), pair("/c", "refs/bisect/x"));
    assert_eq!(path("worktrees/w2/HEAD"), pair("/c", "worktrees/w2/HEAD"));
    assert_eq!(path("worktrees/w2/refs/bisect/good"), pair("/c", "worktrees/w2/refs/bisect/good"));
    assert_eq!(path("worktrees/w2/refs/heads/x"), pair("/c", "refs/heads/x"));
}
