//! Where the loose file of a reference lies: in the git directory of the worktree for
//! references private to it, and in the common directory for shared ones.

use vstd::prelude::*;

use crate::transaction::{FullName, Store};

verus! {

/// The kind of a reference, by the prefix of its full name.
#[derive(Clone, Copy, Debug, PartialEq, Eq)]
pub enum Category {
    /// `refs/tags/…`
    Tag,
    /// `refs/heads/…`
    LocalBranch,
    /// `refs/remotes/…`
    RemoteBranch,
    /// `refs/notes/…`
    Note,
    /// A name of upper-case letters and underscores only, like `HEAD`.
    PseudoRef,
    /// `main-worktree/` followed by a pseudo-ref.
    MainPseudoRef,
    /// `main-worktree/refs/…`
    MainRef,
    /// `worktrees/<name>/` followed by a pseudo-ref.
    LinkedPseudoRef,
    /// `worktrees/<name>/refs/…`
    LinkedRef,
    /// `refs/bisect/…`
    Bisect,
    /// `refs/rewritten/…`
    Rewritten,
    /// `refs/worktree/…`
    WorktreePrivate,
}

/// `s` starts with `prefix`.
#[verifier::opaque]
pub open spec fn starts_with(s: Seq<u8>, prefix: Seq<u8>) -> bool {
    prefix.len() <= s.len() && s.take(prefix.len() as int) == prefix
}

/// A name made of upper-case ASCII letters and underscores only.
#[verifier::opaque]
pub open spec fn is_pseudo_ref(s: Seq<u8>) -> bool {
    forall|i: int| 0 <= i < s.len() ==> (65 <= #[trigger] s[i] <= 90 || s[i] == 95)
}

/// `refs/`
pub open spec fn refs_prefix() -> Seq<u8> {
    seq![114u8, 101, 102, 115, 47]
}

/// `main-worktree/`
pub open spec fn main_worktree_prefix() -> Seq<u8> {
    seq![109u8, 97, 105, 110, 45, 119, 111, 114, 107, 116, 114, 101, 101, 47]
}

/// `worktrees/`
pub open spec fn worktrees_prefix() -> Seq<u8> {
    seq![119u8, 111, 114, 107, 116, 114, 101, 101, 115, 47]
}

/// The category of a name below `refs/` that has one, and where its short name starts:
/// after the whole prefix for tags and branches, and after `refs/` for notes, bisect,
/// worktree-private and rewritten references.
#[verifier::opaque]
pub open spec fn refs_category(name: Seq<u8>) -> Option<(Category, int)> {
    if starts_with(name, refs_prefix() + seq![116u8, 97, 103, 115, 47]) {
        Some((Category::Tag, 10))
    } else if starts_with(name, refs_prefix() + seq![104u8, 101, 97, 100, 115, 47]) {
        Some((Category::LocalBranch, 11))
    } else if starts_with(name, refs_prefix() + seq![114u8, 101, 109, 111, 116, 101, 115, 47]) {
        Some((Category::RemoteBranch, 13))
    } else if starts_with(name, refs_prefix() + seq![110u8, 111, 116, 101, 115, 47]) {
        Some((Category::Note, 5))
    } else if starts_with(name, refs_prefix() + seq![98u8, 105, 115, 101, 99, 116, 47]) {
        Some((Category::Bisect, 5))
    } else if starts_with(name, refs_prefix() + seq![119u8, 111, 114, 107, 116, 114, 101, 101, 47]) {
        Some((Category::WorktreePrivate, 5))
    } else if starts_with(
        name,
        refs_prefix() + seq![114u8, 101, 119, 114, 105, 116, 116, 101, 110, 47],
    ) {
        Some((Category::Rewritten, 5))
    } else {
        None
    }
}

/// The kind of the name after `main-worktree/` (if `main`) or `worktrees/<name>/`: a
/// reference below `refs/`, or a pseudo-ref.
#[verifier::opaque]
pub open spec fn worktree_kind(short: Seq<u8>, main: bool) -> Option<Category> {
    if starts_with(short, refs_prefix()) {
        Some(if main { Category::MainRef } else { Category::LinkedRef })
    } else if is_pseudo_ref(short) {
        Some(if main { Category::MainPseudoRef } else { Category::LinkedPseudoRef })
    } else {
        None
    }
}

/// The position of the first `/` in `s`.
#[verifier::opaque]
pub open spec fn first_slash(s: Seq<u8>) -> Option<int> {
    if exists|i: int| 0 <= i < s.len() && s[i] == 47 {
        Some(
            choose|i: int|
                0 <= i < s.len() && s[i] == 47 && forall|j: int| 0 <= j < i ==> s[j] != 47,
        )
    } else {
        None
    }
}

/// The category of the full reference name `name` and its short name, or nothing if the
/// name belongs to no category.
pub open spec fn category_and_short_name(name: Seq<u8>) -> Option<(Category, Seq<u8>)> {
    match refs_category(name) {
        Some((category, start)) => Some((category, name.skip(start))),
        None => if is_pseudo_ref(name) {
            Some((Category::PseudoRef, name))
        } else if starts_with(name, main_worktree_prefix()) {
            let short = name.skip(14);
            match worktree_kind(short, true) {
                Some(category) => Some((category, short)),
                None => None,
            }
        } else if starts_with(name, worktrees_prefix()) {
            let rest = name.skip(10);
            match first_slash(rest) {
                Some(slash) => {
                    let short = rest.skip(slash + 1);
                    match worktree_kind(short, false) {
                        Some(category) => Some((category, short)),
                        None => None,
                    }
                },
                None => None,
            }
        } else {
            None
        },
    }
}

/// References of these categories belong to a single worktree.
pub open spec fn is_worktree_private(category: Category) -> bool {
    match category {
        Category::LinkedPseudoRef | Category::PseudoRef | Category::Bisect
        | Category::WorktreePrivate | Category::Rewritten => true,
        _ => false,
    }
}

/// The directory shared by all worktrees: the common directory, or the git directory if
/// the store has none.
pub open spec fn common_dir_resolved(store: Store) -> Seq<u8> {
    match store.common_dir {
        Some(dir) => dir@,
        None => store.git_dir@,
    }
}

/// The directory under which the loose file of the reference named `name` lies, and its
/// name relative to that directory before the namespace is applied.
pub open spec fn base_dir_and_relative_name(store: Store, name: Seq<u8>) -> (Seq<u8>, Seq<u8>) {
    let common = common_dir_resolved(store);
    match category_and_short_name(name) {
        None => (common, name),
        Some((category, short)) => match category {
            Category::Tag | Category::LocalBranch | Category::RemoteBranch | Category::Note
            | Category::LinkedPseudoRef => (common, name),
            Category::MainRef | Category::MainPseudoRef => (common, short),
            Category::LinkedRef => if category_and_short_name(short) matches Some((c, _))
                && is_worktree_private(c) {
                (common, name)
            } else {
                (common, short)
            },
            Category::PseudoRef | Category::Bisect | Category::Rewritten | Category::WorktreePrivate => (
                store.git_dir@,
                name,
            ),
        },
    }
}

/// The directory under which the loose file of the reference named `name` lies, and its
/// path relative to that directory, in the store's namespace if it has one.
pub open spec fn reference_path(store: Store, name: Seq<u8>) -> (Seq<u8>, Seq<u8>) {
    let (base, relative) = base_dir_and_relative_name(store, name);
    match store.namespace {
        Some(namespace) => (base, namespace@ + relative),
        None => (base, relative),
    }
}

/// Whether `s[from..]` starts with `prefix`.
fn has_prefix_at(s: &[u8], from: usize, prefix: &[u8]) -> (yes: bool)
    requires
        from <= s@.len(),
    ensures
        yes == starts_with(s@.skip(from as int), prefix@),
        yes ==> from + prefix@.len() <= s@.len(),
{
    reveal(starts_with);
    if s.len() - from < prefix.len() {
        return false;
    }
    let mut i: usize = 0;
    while i < prefix.len()
        invariant
            from + prefix@.len() <= s.len(),
            i <= prefix@.len(),
            forall|k: int| 0 <= k < i ==> s@[from + k] == prefix@[k],
        decreases prefix.len() - i,
    {
        if s[from + i] != prefix[i] {
            assert(s@.skip(from as int).take(prefix@.len() as int)[i as int] != prefix@[i as int]);
            proof {
                reveal(starts_with);
            }
            return false;
        }
        i = i + 1;
    }
    assert(s@.skip(from as int).take(prefix@.len() as int) =~= prefix@);
    true
}

/// Whether `s[from..]` is made of upper-case ASCII letters and underscores only.
fn is_pseudo_ref_at(s: &[u8], from: usize) -> (yes: bool)
    requires
        from <= s@.len(),
    ensures
        yes == is_pseudo_ref(s@.skip(from as int)),
{
    reveal(is_pseudo_ref);
    let mut i = from;
    while i < s.len()
        invariant
            from <= i <= s@.len(),
            forall|k: int| from <= k < i ==> (65 <= #[trigger] s@[k] <= 90 || s@[k] == 95),
        decreases s.len() - i,
    {
        let c = s[i];
        if !(65 <= c && c <= 90 || c == 95) {
            assert(s@.skip(from as int)[i - from] == c);
            proof {
                reveal(is_pseudo_ref);
            }
            return false;
        }
        i = i + 1;
    }
    assert forall|k: int| 0 <= k < s@.skip(from as int).len() implies (65 <= #[trigger] s@.skip(
        from as int,
    )[k] <= 90 || s@.skip(from as int)[k] == 95) by {
        assert(s@.skip(from as int)[k] == s@[from + k]);
    }
    true
}

/// Append `bytes[from..]` to `out`.
fn push_from(out: &mut Vec<u8>, bytes: &[u8], from: usize)
    requires
        from <= bytes@.len(),
    ensures
        final(out)@ == old(out)@ + bytes@.skip(from as int),
{
    crate::encoding::push_range(out, bytes, from, bytes.len());
    assert(bytes@.subrange(from as int, bytes@.len() as int) =~= bytes@.skip(from as int));
}

/// The category of a name below `refs/` starting at `from`, and where its short name starts.
fn refs_category_at(name: &[u8], from: usize) -> (r: Option<(Category, usize)>)
    requires
        from <= name@.len(),
    ensures
        match refs_category(name@.skip(from as int)) {
            Some((c, k)) => 0 <= k <= name@.len() - from && r == Some((c, (from + k) as usize)),
            None => r is None,
        },
        r matches Some((_, start)) ==> from <= start <= name@.len(),
{
    reveal(refs_category);
    assert(name@.len() == name.len());
    let tags: [u8; 10] = [114, 101, 102, 115, 47, 116, 97, 103, 115, 47];
    let heads: [u8; 11] = [114, 101, 102, 115, 47, 104, 101, 97, 100, 115, 47];
    let remotes: [u8; 13] = [114, 101, 102, 115, 47, 114, 101, 109, 111, 116, 101, 115, 47];
    let notes: [u8; 11] = [114, 101, 102, 115, 47, 110, 111, 116, 101, 115, 47];
    let bisect: [u8; 12] = [114, 101, 102, 115, 47, 98, 105, 115, 101, 99, 116, 47];
    let worktree: [u8; 14] = [114, 101, 102, 115, 47, 119, 111, 114, 107, 116, 114, 101, 101, 47];
    let rewritten: [u8; 15] = [114, 101, 102, 115, 47, 114, 101, 119, 114, 105, 116, 116, 101, 110, 47];
    assert(tags@ =~= refs_prefix() + seq![116u8, 97, 103, 115, 47]);
    assert(heads@ =~= refs_prefix() + seq![104u8, 101, 97, 100, 115, 47]);
    assert(remotes@ =~= refs_prefix() + seq![114u8, 101, 109, 111, 116, 101, 115, 47]);
    assert(notes@ =~= refs_prefix() + seq![110u8, 111, 116, 101, 115, 47]);
    assert(bisect@ =~= refs_prefix() + seq![98u8, 105, 115, 101, 99, 116, 47]);
    assert(worktree@ =~= refs_prefix() + seq![119u8, 111, 114, 107, 116, 114, 101, 101, 47]);
    assert(rewritten@ =~= refs_prefix() + seq![114u8, 101, 119, 114, 105, 116, 116, 101, 110, 47]);
    if has_prefix_at(name, from, tags.as_slice()) {
        Some((Category::Tag, from + 10))
    } else if has_prefix_at(name, from, heads.as_slice()) {
        Some((Category::LocalBranch, from + 11))
    } else if has_prefix_at(name, from, remotes.as_slice()) {
        Some((Category::RemoteBranch, from + 13))
    } else if has_prefix_at(name, from, notes.as_slice()) {
        Some((Category::Note, from + 5))
    } else if has_prefix_at(name, from, bisect.as_slice()) {
        Some((Category::Bisect, from + 5))
    } else if has_prefix_at(name, from, worktree.as_slice()) {
        Some((Category::WorktreePrivate, from + 5))
    } else if has_prefix_at(name, from, rewritten.as_slice()) {
        Some((Category::Rewritten, from + 5))
    } else {
        None
    }
}

/// The kind of the name starting at `from` after a worktree prefix.
fn worktree_kind_at(name: &[u8], from: usize, main: bool) -> (r: Option<Category>)
    requires
        from <= name@.len(),
    ensures
        r == worktree_kind(name@.skip(from as int), main),
{
    reveal(worktree_kind);
    let refs: [u8; 5] = [114, 101, 102, 115, 47];
    assert(refs@ =~= refs_prefix());
    if has_prefix_at(name, from, refs.as_slice()) {
        Some(if main { Category::MainRef } else { Category::LinkedRef })
    } else if is_pseudo_ref_at(name, from) {
        Some(if main { Category::MainPseudoRef } else { Category::LinkedPseudoRef })
    } else {
        None
    }
}

/// The position of the first `/` at or after `from`.
fn slash_at(name: &[u8], from: usize) -> (r: Option<usize>)
    requires
        from <= name@.len(),
    ensures
        match first_slash(name@.skip(from as int)) {
            Some(i) => 0 <= i < name@.len() - from && r == Some((from + i) as usize),
            None => r is None,
        },
        r matches Some(i) ==> from <= i < name@.len(),
{
    reveal(first_slash);
    let ghost rest = name@.skip(from as int);
    let mut i = from;
    while i < name.len() && name[i] != 47
        invariant
            from <= i <= name@.len(),
            rest == name@.skip(from as int),
            forall|j: int| from <= j < i ==> name@[j] != 47,
        decreases name.len() - i,
    {
        i = i + 1;
    }
    if i == name.len() {
        assert forall|k: int| !(0 <= k < rest.len() && rest[k] == 47) by {
            if 0 <= k < rest.len() {
                assert(rest[k] == name@[from + k]);
            }
        }
        return None;
    }
    proof {
        let slash = i - from;
        assert(rest[slash] == 47);
        assert forall|j: int| 0 <= j < slash implies rest[j] != 47 by {
            assert(rest[j] == name@[from + j]);
        }
        let c = choose|c: int| 0 <= c < rest.len() && rest[c] == 47 && forall|j: int|
            0 <= j < c ==> rest[j] != 47;
        if c < slash {
            assert(rest[c] == name@[from + c]);
        } else if c > slash {
            assert(rest[slash] != 47);
        }
    }
    Some(i)
}

proof fn lemma_skip_skip(s: Seq<u8>, a: int, b: int)
    requires
        0 <= a,
        0 <= b,
        a + b <= s.len(),
    ensures
        s.skip(a).skip(b) == s.skip(a + b),
{
    assert(s.skip(a).skip(b) =~= s.skip(a + b));
}

/// The category of the full name starting at `from`, and where its short name starts.
#[verifier::spinoff_prover]
fn category_at(name: &[u8], from: usize) -> (r: Option<(Category, usize)>)
    requires
        from <= name@.len(),
    ensures
        match r {
            Some((c, start)) => from <= start <= name@.len() && category_and_short_name(
                name@.skip(from as int),
            ) == Some((c, name@.skip(start as int))),
            None => category_and_short_name(name@.skip(from as int)) is None,
        },
{
    let ghost s = name@.skip(from as int);
    assert(name@.len() == name.len());
    if let Some((category, start)) = refs_category_at(name, from) {
        proof {
            let k = refs_category(s).unwrap().1;
            assert(refs_category(s) == Some((category, k)));
            assert(start == from + k);
            lemma_skip_skip(name@, from as int, start - from);
            assert(category_and_short_name(s) == Some((category, s.skip(k))));
        }
        return Some((category, start));
    }
    if is_pseudo_ref_at(name, from) {
        return Some((Category::PseudoRef, from));
    }
    let main_worktree: [u8; 14] = [109, 97, 105, 110, 45, 119, 111, 114, 107, 116, 114, 101, 101, 47];
    let worktrees: [u8; 10] = [119, 111, 114, 107, 116, 114, 101, 101, 115, 47];
    assert(main_worktree@ =~= main_worktree_prefix());
    assert(worktrees@ =~= worktrees_prefix());
    if has_prefix_at(name, from, main_worktree.as_slice()) {
        let start = from + 14;
        proof {
            lemma_skip_skip(name@, from as int, 14);
        }
        return match worktree_kind_at(name, start, true) {
            Some(category) => Some((category, start)),
            None => None,
        };
    }
    if has_prefix_at(name, from, worktrees.as_slice()) {
        let rest_start = from + 10;
        proof {
            lemma_skip_skip(name@, from as int, 10);
        }
        return match slash_at(name, rest_start) {
            None => None,
            Some(slash) => {
                let start = slash + 1;
                proof {
                    let rest = s.skip(10);
                    assert(rest == name@.skip(rest_start as int));
                    let i = first_slash(rest).unwrap();
                    assert(first_slash(rest) == Some(i));
                    assert(slash == rest_start + i);
                    lemma_skip_skip(name@, rest_start as int, slash - rest_start + 1);
                    assert(rest.skip(i + 1) == name@.skip(start as int));
                }
                match worktree_kind_at(name, start, false) {
                    Some(category) => Some((category, start)),
                    None => None,
                }
            },
        };
    }
    None
}

impl Store {
    /// The directory that the loose file of the reference named `name` lies under, and its
    /// path relative to that directory.
    pub fn reference_path_with_base(&self, name: &FullName) -> (paths: (Vec<u8>, Vec<u8>))
        ensures
            (paths.0@, paths.1@) == reference_path(*self, name.0@),
    {
        let n = name.0.as_slice();
        proof {
            assert(n@.skip(0) =~= n@);
        }
        let mut base: Vec<u8> = Vec::new();
        let mut relative: Vec<u8> = Vec::new();
        match &self.namespace {
            Some(namespace) => crate::encoding::push_all(&mut relative, namespace.as_slice()),
            None => {},
        }
        let ghost prefix = relative@;
        let (private, from): (bool, usize) = match category_at(n, 0) {
            None => (false, 0),
            Some((category, start)) => match category {
                Category::PseudoRef | Category::Bisect | Category::Rewritten
                | Category::WorktreePrivate => (true, 0),
                Category::MainRef | Category::MainPseudoRef => (false, start),
                Category::LinkedRef => match category_at(n, start) {
                    Some((inner, _)) => match inner {
                        Category::LinkedPseudoRef | Category::PseudoRef | Category::Bisect
                        | Category::WorktreePrivate | Category::Rewritten => (false, 0),
                        _ => (false, start),
                    },
                    None => (false, start),
                },
                _ => (false, 0),
            },
        };
        if private {
            crate::encoding::push_all(&mut base, self.git_dir.as_slice());
        } else {
            match &self.common_dir {
                Some(dir) => crate::encoding::push_all(&mut base, dir.as_slice()),
                None => crate::encoding::push_all(&mut base, self.git_dir.as_slice()),
            }
        }
        push_from(&mut relative, n, from);
        assert(base@ =~= reference_path(*self, name.0@).0);
        assert(relative@ =~= reference_path(*self, name.0@).1);
        (base, relative)
    }
}

// ---------------------------------------------------------------------------
// Where references lie
// ---------------------------------------------------------------------------

/// `s` starts with `refs/` followed by `bisect/`, `worktree/` or `rewritten/`.
pub open spec fn in_private_refs_dir(s: Seq<u8>) -> bool {
    ||| s.len() >= 12 && s.take(12) == seq![114u8, 101, 102, 115, 47, 98, 105, 115, 101, 99, 116, 47]
    ||| s.len() >= 14 && s.take(14) == seq![
        114u8,
        101,
        102,
        115,
        47,
        119,
        111,
        114,
        107,
        116,
        114,
        101,
        101,
        47,
    ]
    ||| s.len() >= 15 && s.take(15) == seq![
        114u8,
        101,
        102,
        115,
        47,
        114,
        101,
        119,
        114,
        105,
        116,
        116,
        101,
        110,
        47,
    ]
}

/// `s` starts with `refs/`.
pub open spec fn in_refs_dir(s: Seq<u8>) -> bool {
    s.len() >= 5 && s.take(5) == seq![114u8, 101, 102, 115, 47]
}

/// The shared directory of `store`: its common directory, or its git directory if it has none.
pub open spec fn shared_dir(store: Store) -> Seq<u8> {
    match store.common_dir {
        Some(dir) => dir@,
        None => store.git_dir@,
    }
}

/// `path` in the namespace of `store`.
pub open spec fn in_namespace(store: Store, path: Seq<u8>) -> Seq<u8> {
    match store.namespace {
        Some(namespace) => namespace@ + path,
        None => path,
    }
}

proof fn lemma_starts_with_literal(s: Seq<u8>, p: Seq<u8>)
    ensures
        starts_with(s, p) == (p.len() <= s.len() && s.take(p.len() as int) == p),
{
    reveal(starts_with);
}

/// A name below `refs/` that is not in a worktree-private directory is a shared
/// reference, or belongs to no category.
#[verifier::spinoff_prover]
proof fn lemma_shared_category(name: Seq<u8>)
    requires
        in_refs_dir(name),
        !in_private_refs_dir(name),
    ensures
        category_and_short_name(name) matches Some((c, short)) ==> !is_worktree_private(c) && (
        c is Tag || c is LocalBranch || c is RemoteBranch || c is Note),
{
    reveal(refs_category);
    reveal(is_pseudo_ref);
    assert(refs_prefix() =~= seq![114u8, 101, 102, 115, 47]);
    let bisect = refs_prefix() + seq![98u8, 105, 115, 101, 99, 116, 47];
    let worktree = refs_prefix() + seq![119u8, 111, 114, 107, 116, 114, 101, 101, 47];
    let rewritten = refs_prefix() + seq![114u8, 101, 119, 114, 105, 116, 116, 101, 110, 47];
    assert(bisect =~= seq![114u8, 101, 102, 115, 47, 98, 105, 115, 101, 99, 116, 47]);
    assert(worktree =~= seq![114u8, 101, 102, 115, 47, 119, 111, 114, 107, 116, 114, 101, 101, 47]);
    assert(rewritten =~= seq![114u8, 101, 102, 115, 47, 114, 101, 119, 114, 105, 116, 116, 101, 110, 47]);
    lemma_starts_with_literal(name, bisect);
    lemma_starts_with_literal(name, worktree);
    lemma_starts_with_literal(name, rewritten);
    assert(name[0] == name.take(5)[0]);
    assert(name[0] == 114);
    assert(!is_pseudo_ref(name));
    lemma_starts_with_literal(name, main_worktree_prefix());
    lemma_starts_with_literal(name, worktrees_prefix());
    if main_worktree_prefix().len() <= name.len() {
        assert(name.take(14)[0] != main_worktree_prefix()[0]);
    }
    if worktrees_prefix().len() <= name.len() {
        assert(name.take(10)[0] != worktrees_prefix()[0]);
    }
}

/// Every reference below `refs/` outside of `refs/bisect/`, `refs/worktree/` and
/// `refs/rewritten/` (branches, tags, remote-tracking branches, notes, the stash, ...) is
/// shared by all worktrees: its loose file lies in the common directory, under its full
/// name.
pub proof fn lemma_shared_refs_live_in_the_common_dir(store: Store, name: Seq<u8>)
    requires
        in_refs_dir(name),
        !in_private_refs_dir(name),
    ensures
        reference_path(store, name) == (shared_dir(store), in_namespace(store, name)),
{
    lemma_shared_category(name);
}

/// Pseudo-refs like `HEAD` (names of upper-case letters and underscores) and references
/// below `refs/bisect/`, `refs/worktree/` and `refs/rewritten/` belong to the worktree:
/// their loose file lies in the store's own git directory, under the full name.
#[verifier::spinoff_prover]
pub proof fn lemma_private_refs_live_in_the_git_dir(store: Store, name: Seq<u8>)
    requires
        (forall|i: int| 0 <= i < name.len() ==> (65 <= #[trigger] name[i] <= 90 || name[i] == 95))
            || in_private_refs_dir(name),
    ensures
        reference_path(store, name) == (store.git_dir@, in_namespace(store, name)),
{
    reveal(refs_category);
    reveal(is_pseudo_ref);
    assert(refs_prefix() =~= seq![114u8, 101, 102, 115, 47]);
    let tags = refs_prefix() + seq![116u8, 97, 103, 115, 47];
    let heads = refs_prefix() + seq![104u8, 101, 97, 100, 115, 47];
    let remotes = refs_prefix() + seq![114u8, 101, 109, 111, 116, 101, 115, 47];
    let notes = refs_prefix() + seq![110u8, 111, 116, 101, 115, 47];
    let bisect = refs_prefix() + seq![98u8, 105, 115, 101, 99, 116, 47];
    let worktree = refs_prefix() + seq![119u8, 111, 114, 107, 116, 114, 101, 101, 47];
    let rewritten = refs_prefix() + seq![114u8, 101, 119, 114, 105, 116, 116, 101, 110, 47];
    assert(bisect =~= seq![114u8, 101, 102, 115, 47, 98, 105, 115, 101, 99, 116, 47]);
    assert(worktree =~= seq![114u8, 101, 102, 115, 47, 119, 111, 114, 107, 116, 114, 101, 101, 47]);
    assert(rewritten =~= seq![114u8, 101, 102, 115, 47, 114, 101, 119, 114, 105, 116, 116, 101, 110, 47]);
    lemma_starts_with_literal(name, tags);
    lemma_starts_with_literal(name, heads);
    lemma_starts_with_literal(name, remotes);
    lemma_starts_with_literal(name, notes);
    lemma_starts_with_literal(name, bisect);
    lemma_starts_with_literal(name, worktree);
    lemma_starts_with_literal(name, rewritten);
    if in_private_refs_dir(name) {
        assert(name[5] == name.take(12)[5]);
        if name.len() >= 10 {
            assert(name.take(10)[5] == name[5]);
            assert(tags[5] == 116);
            assert(name.take(10) != tags);
        }
        if name.len() >= 11 {
            assert(name.take(11)[5] == name[5]);
            assert(heads[5] == 104);
            assert(notes[5] == 110);
            assert(name.take(11) != heads);
            assert(name.take(11) != notes);
        }
        if name.len() >= 13 {
            assert(name.take(13)[5] == name[5]);
            assert(name.take(13)[7] == name[7]);
            assert(remotes[5] == 114);
            assert(remotes[7] == 109);
            if name.take(13) == remotes {
                assert(name[5] == 114 && name[7] == 109);
                assert(name.take(15)[7] == name[7]);
            }
        }
    } else {
        if name.len() >= 5 {
            assert(name[0] == name.take(5)[0]);
            assert(!(65 <= name[0] <= 90 || name[0] == 95) || name[0] != 114);
        }
    }
}

/// `main-worktree/` followed by a reference below `refs/` names that reference of the main
/// worktree, which lies in the common directory under the name without the prefix.
#[verifier::spinoff_prover]
pub proof fn lemma_main_worktree_refs_live_in_the_common_dir(store: Store, short: Seq<u8>)
    requires
        in_refs_dir(short),
    ensures
        reference_path(
            store,
            seq![109u8, 97, 105, 110, 45, 119, 111, 114, 107, 116, 114, 101, 101, 47] + short,
        ) == (shared_dir(store), in_namespace(store, short)),
{
    let name = seq![109u8, 97, 105, 110, 45, 119, 111, 114, 107, 116, 114, 101, 101, 47] + short;
    reveal(refs_category);
    reveal(is_pseudo_ref);
    reveal(worktree_kind);
    lemma_starts_with_literal(name, main_worktree_prefix());
    lemma_starts_with_literal(short, refs_prefix());
    assert(refs_prefix() =~= seq![114u8, 101, 102, 115, 47]);
    assert(name.take(14) =~= main_worktree_prefix());
    assert(name.skip(14) =~= short);
    assert(name[0] == 109);
    assert(!is_pseudo_ref(name));
    assert forall|p: Seq<u8>| p.len() >= 1 && p[0] == 114 implies !starts_with(name, p) by {
        lemma_starts_with_literal(name, p);
        if p.len() <= name.len() {
            assert(name.take(p.len() as int)[0] == 109);
        }
    }
    assert((refs_prefix() + seq![116u8, 97, 103, 115, 47])[0] == 114);
    assert((refs_prefix() + seq![104u8, 101, 97, 100, 115, 47])[0] == 114);
    assert((refs_prefix() + seq![114u8, 101, 109, 111, 116, 101, 115, 47])[0] == 114);
    assert((refs_prefix() + seq![110u8, 111, 116, 101, 115, 47])[0] == 114);
    assert((refs_prefix() + seq![98u8, 105, 115, 101, 99, 116, 47])[0] == 114);
    assert((refs_prefix() + seq![119u8, 111, 114, 107, 116, 114, 101, 101, 47])[0] == 114);
    assert((refs_prefix() + seq![114u8, 101, 119, 114, 105, 116, 116, 101, 110, 47])[0] == 114);
}

/// `worktrees/<w>/` followed by a reference below `refs/` names that reference as seen from
/// the linked worktree `w`. It lies in the common directory: a shared reference under the
/// name without the prefix, a reference private to that worktree (below `refs/bisect/`,
/// `refs/worktree/` or `refs/rewritten/`) under the full name, inside the worktree's
/// directory there.
#[verifier::spinoff_prover]
pub proof fn lemma_linked_worktree_refs_live_in_the_common_dir(store: Store, w: Seq<u8>, short: Seq<u8>)
    requires
        forall|i: int| 0 <= i < w.len() ==> w[i] != 47,
        in_refs_dir(short),
    ensures
        ({
            let name = seq![119u8, 111, 114, 107, 116, 114, 101, 101, 115, 47] + w + seq![47u8] + short;
            reference_path(store, name) == if in_private_refs_dir(short) {
                (shared_dir(store), in_namespace(store, name))
            } else {
                (shared_dir(store), in_namespace(store, short))
            }
        }),
{
    lemma_linked_category(w, short);
    if in_private_refs_dir(short) {
        lemma_private_category(short);
    } else {
        lemma_shared_category(short);
    }
}

#[verifier::spinoff_prover]
proof fn lemma_linked_category(w: Seq<u8>, short: Seq<u8>)
    requires
        forall|i: int| 0 <= i < w.len() ==> w[i] != 47,
        in_refs_dir(short),
    ensures
        category_and_short_name(
            seq![119u8, 111, 114, 107, 116, 114, 101, 101, 115, 47] + w + seq![47u8] + short,
        ) == Some((Category::LinkedRef, short)),
{
    let name = seq![119u8, 111, 114, 107, 116, 114, 101, 101, 115, 47] + w + seq![47u8] + short;
    lemma_not_refs_category(name);
    reveal(is_pseudo_ref);
    reveal(worktree_kind);
    reveal(first_slash);
    lemma_starts_with_literal(name, main_worktree_prefix());
    lemma_starts_with_literal(name, worktrees_prefix());
    lemma_starts_with_literal(short, refs_prefix());
    assert(refs_prefix() =~= seq![114u8, 101, 102, 115, 47]);
    assert(name.take(10) =~= worktrees_prefix());
    let rest = name.skip(10);
    assert(rest =~= w + seq![47u8] + short);
    assert(name[0] == 119);
    assert(!is_pseudo_ref(name));
    if main_worktree_prefix().len() <= name.len() {
        assert(name.take(14)[0] != main_worktree_prefix()[0]);
    }
    let slash = w.len() as int;
    assert(rest[slash] == 47);
    assert forall|j: int| 0 <= j < slash implies rest[j] != 47 by {
        assert(rest[j] == w[j]);
    }
    let c = choose|c: int| 0 <= c < rest.len() && rest[c] == 47 && forall|j: int|
        0 <= j < c ==> rest[j] != 47;
    if c < slash {
        assert(rest[c] == w[c]);
    } else if c > slash {
        assert(rest[slash] != 47);
    }
    assert(first_slash(rest) == Some(slash));
    assert(rest.skip(slash + 1) =~= short);
    assert(short.take(5) =~= refs_prefix());
}

/// A name that does not start with `r` has no category below `refs/`.
proof fn lemma_not_refs_category(name: Seq<u8>)
    requires
        name.len() > 0,
        name[0] != 114,
    ensures
        refs_category(name) is None,
{
    reveal(refs_category);
    assert forall|p: Seq<u8>| p.len() >= 1 && p[0] == 114 implies !starts_with(name, p) by {
        lemma_starts_with_literal(name, p);
        if p.len() <= name.len() {
            assert(name.take(p.len() as int)[0] == name[0]);
        }
    }
    assert(refs_prefix()[0] == 114);
    assert((refs_prefix() + seq![116u8, 97, 103, 115, 47])[0] == 114);
    assert((refs_prefix() + seq![104u8, 101, 97, 100, 115, 47])[0] == 114);
    assert((refs_prefix() + seq![114u8, 101, 109, 111, 116, 101, 115, 47])[0] == 114);
    assert((refs_prefix() + seq![110u8, 111, 116, 101, 115, 47])[0] == 114);
    assert((refs_prefix() + seq![98u8, 105, 115, 101, 99, 116, 47])[0] == 114);
    assert((refs_prefix() + seq![119u8, 111, 114, 107, 116, 114, 101, 101, 47])[0] == 114);
    assert((refs_prefix() + seq![114u8, 101, 119, 114, 105, 116, 116, 101, 110, 47])[0] == 114);
}

/// A name in a worktree-private directory belongs to a worktree-private category.
#[verifier::spinoff_prover]
proof fn lemma_private_category(name: Seq<u8>)
    requires
        in_private_refs_dir(name),
    ensures
        category_and_short_name(name) matches Some((c, _)) && is_worktree_private(c),
{
    reveal(refs_category);
    assert(refs_prefix() =~= seq![114u8, 101, 102, 115, 47]);
    let tags = refs_prefix() + seq![116u8, 97, 103, 115, 47];
    let heads = refs_prefix() + seq![104u8, 101, 97, 100, 115, 47];
    let remotes = refs_prefix() + seq![114u8, 101, 109, 111, 116, 101, 115, 47];
    let notes = refs_prefix() + seq![110u8, 111, 116, 101, 115, 47];
    let bisect = refs_prefix() + seq![98u8, 105, 115, 101, 99, 116, 47];
    let worktree = refs_prefix() + seq![119u8, 111, 114, 107, 116, 114, 101, 101, 47];
    let rewritten = refs_prefix() + seq![114u8, 101, 119, 114, 105, 116, 116, 101, 110, 47];
    assert(bisect =~= seq![114u8, 101, 102, 115, 47, 98, 105, 115, 101, 99, 116, 47]);
    assert(worktree =~= seq![114u8, 101, 102, 115, 47, 119, 111, 114, 107, 116, 114, 101, 101, 47]);
    assert(rewritten =~= seq![114u8, 101, 102, 115, 47, 114, 101, 119, 114, 105, 116, 116, 101, 110, 47]);
    lemma_starts_with_literal(name, tags);
    lemma_starts_with_literal(name, heads);
    lemma_starts_with_literal(name, remotes);
    lemma_starts_with_literal(name, notes);
    lemma_starts_with_literal(name, bisect);
    lemma_starts_with_literal(name, worktree);
    lemma_starts_with_literal(name, rewritten);
    assert(name[5] == name.take(12)[5]);
    if name.len() >= 10 {
        assert(name.take(10)[5] == name[5]);
        assert(tags[5] == 116);
    }
    if name.len() >= 11 {
        assert(name.take(11)[5] == name[5]);
        assert(heads[5] == 104);
        assert(notes[5] == 110);
    }
    if name.len() >= 13 {
        assert(name.take(13)[5] == name[5]);
        assert(name.take(13)[7] == name[7]);
        assert(remotes[7] == 109);
        if name.take(13) == remotes {
            assert(name.take(15)[7] == name[7]);
        }
    }
}

} // verus!
