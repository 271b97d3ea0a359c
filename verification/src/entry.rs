//! Index entries and their serialisation in the on-disk forms of index versions 2, 3 and 4.

use vstd::prelude::*;

use crate::encoding::{
    be16, be32, lemma_offset_len_of_framed, lemma_offset_roundtrip, lemma_read_be16, lemma_read_be32, offset_bytes,
    offset_framed, offset_len, offset_value, push_all, push_be16, push_be32, push_offset, push_range,
    read_be16, read_be32,
};
use crate::hash::ObjectId;

verus! {

/// The twelve bits holding the length of the path, or `0xfff` for longer paths.
pub const PATH_LEN: u32 = 0x0fff;
/// The two bits holding the merge stage.
pub const STAGE_MASK: u32 = 0x3000;
/// The entry has a second, extended flags field on disk.
pub const EXTENDED: u32 = 0x4000;
/// The worktree file is assumed unchanged.
pub const ASSUME_VALID: u32 = 0x8000;
/// The entry is to be removed and is not written.
pub const REMOVE: u32 = 0x2_0000;
/// The entry was added with `git add -N`.
pub const INTENT_TO_ADD: u32 = 0x2000_0000;
/// The entry is outside of the sparse checkout.
pub const SKIP_WORKTREE: u32 = 0x4000_0000;

/// A point in time as the index stores it.
#[derive(Clone, Copy, Debug, PartialEq, Eq)]
pub struct Time {
    /// Seconds since the epoch.
    pub secs: u32,
    /// Nanoseconds within the second.
    pub nsecs: u32,
}

/// The file-system information the index keeps to detect changes of a worktree file.
#[derive(Clone, Copy, Debug, PartialEq, Eq)]
pub struct Stat {
    /// Last modification of the contents.
    pub mtime: Time,
    /// Last change of the metadata.
    pub ctime: Time,
    /// The device number.
    pub dev: u32,
    /// The inode number.
    pub ino: u32,
    /// The owner's user id.
    pub uid: u32,
    /// The owner's group id.
    pub gid: u32,
    /// The size in bytes, truncated to 32 bits.
    pub size: u32,
}

/// The in-memory flags of an entry.
#[derive(Clone, Copy, Debug, PartialEq, Eq)]
pub struct Flags {
    /// The flag bits.
    pub bits: u32,
}

/// The file mode of an entry.
#[derive(Clone, Copy, Debug, PartialEq, Eq)]
pub struct Mode {
    /// The mode bits, as in `0o100644`.
    pub bits: u32,
}

/// The 16-bit flags field that is stored on disk, before the path length is merged in.
pub open spec fn spec_storage_flags(flags: Flags) -> u16 {
    (flags.bits & (PATH_LEN | STAGE_MASK | ASSUME_VALID | EXTENDED)) as u16
}

/// The 16-bit extended flags field that is stored on disk after the flags field.
pub open spec fn spec_extended_flags(flags: Flags) -> u16 {
    ((flags.bits & (INTENT_TO_ADD | SKIP_WORKTREE)) >> 16u32) as u16
}

impl Flags {
    /// Whether all bits of `other` are set.
    pub fn contains(&self, other: u32) -> (yes: bool)
        ensures
            yes == (self.bits & other == other),
    {
        self.bits & other == other
    }

    /// The flags field stored on disk: the path length, stage, assume-valid and extended bits.
    pub fn to_storage(&self) -> (bits: u16)
        ensures
            bits == spec_storage_flags(*self),
    {
        (self.bits & (PATH_LEN | STAGE_MASK | ASSUME_VALID | EXTENDED)) as u16
    }

    /// The extended flags field stored on disk: the intent-to-add and skip-worktree bits.
    pub fn extended_storage(&self) -> (bits: u16)
        ensures
            bits == spec_extended_flags(*self),
    {
        ((self.bits & (INTENT_TO_ADD | SKIP_WORKTREE)) >> 16u32) as u16
    }
}

/// The part of the index state that entries refer to: the bytes of all paths.
#[derive(Clone, Debug)]
pub struct State {
    /// All entry paths, one after another.
    pub path_backing: Vec<u8>,
}

/// One entry of the index.
#[derive(Debug)]
pub struct Entry {
    /// File-system information of the worktree file.
    pub stat: Stat,
    /// The id of the blob or commit the entry points to.
    pub id: ObjectId,
    /// The entry's flags.
    pub flags: Flags,
    /// The entry's file mode.
    pub mode: Mode,
    /// Where the entry's path lies in the state's path backing.
    pub path: std::ops::Range<usize>,
}

/// The value the path-length bits of the flags field get: the length, or `0xfff` for longer paths.
pub open spec fn path_len_field(len: nat) -> u16 {
    if len >= 0xfff {
        0xfff
    } else {
        len as u16
    }
}

/// The length of the common prefix of `a` and `b` from position `i` on, plus `i`.
pub open spec fn common_prefix_from(a: Seq<u8>, b: Seq<u8>, i: nat) -> nat
    decreases a.len() - i,
{
    if i < a.len() && i < b.len() && a[i as int] == b[i as int] {
        common_prefix_from(a, b, i + 1)
    } else {
        i
    }
}

/// The length of the longest common prefix of `a` and `b`.
pub open spec fn common_prefix_len(a: Seq<u8>, b: Seq<u8>) -> nat {
    common_prefix_from(a, b, 0)
}

/// How a path is written: whole, or for index version 4 relative to the `previous` path,
/// as the number of bytes to strip from the end of `previous` followed by the bytes that
/// differ.
pub open spec fn encoded_path(path: Seq<u8>, previous: Option<Seq<u8>>) -> Seq<u8> {
    match previous {
        None => path,
        Some(prev) => {
            let common = common_prefix_len(prev, path);
            offset_bytes((prev.len() - common) as nat, false) + path.skip(common as int)
        },
    }
}

/// The view of an optional byte slice.
pub open spec fn opt_bytes(previous: Option<&[u8]>) -> Option<Seq<u8>> {
    match previous {
        None => None,
        Some(p) => Some(p@),
    }
}

/// The stat information and mode of `entry` as ten big-endian 32-bit numbers.
pub open spec fn stat_bytes(entry: Entry) -> Seq<u8> {
    let stat = entry.stat;
    be32(stat.ctime.secs) + be32(stat.ctime.nsecs) + be32(stat.mtime.secs) + be32(stat.mtime.nsecs)
        + be32(stat.dev) + be32(stat.ino) + be32(entry.mode.bits) + be32(stat.uid) + be32(stat.gid)
        + be32(stat.size)
}

/// The flags field with the length of a path of `path_len` bytes merged in, followed by
/// the extended flags field if the extended flag is set.
pub open spec fn flag_bytes(flags: Flags, path_len: nat) -> Seq<u8> {
    be16((spec_storage_flags(flags) | path_len_field(path_len)) as u16) + (if flags.bits & EXTENDED
        == EXTENDED {
        be16(spec_extended_flags(flags))
    } else {
        Seq::empty()
    })
}

/// The bytes of `entry` with path `path` in the on-disk form, without padding.
pub open spec fn entry_bytes(entry: Entry, path: Seq<u8>, previous: Option<Seq<u8>>) -> Seq<u8> {
    stat_bytes(entry) + entry.id@ + flag_bytes(entry.flags, path.len()) + encoded_path(path, previous)
        + seq![0u8]
}

/// Append the stat information and mode of `entry` to `out`.
fn push_stat(out: &mut Vec<u8>, entry: &Entry)
    ensures
        final(out)@ == old(out)@ + stat_bytes(*entry),
{
    let stat = entry.stat;
    push_be32(out, stat.ctime.secs);
    push_be32(out, stat.ctime.nsecs);
    push_be32(out, stat.mtime.secs);
    push_be32(out, stat.mtime.nsecs);
    push_be32(out, stat.dev);
    push_be32(out, stat.ino);
    push_be32(out, entry.mode.bits);
    push_be32(out, stat.uid);
    push_be32(out, stat.gid);
    push_be32(out, stat.size);
    assert(out@ =~= old(out)@ + stat_bytes(*entry));
}

/// Append the flags of an entry whose path is `path_len` bytes long to `out`.
fn push_flags(out: &mut Vec<u8>, flags: &Flags, path_len: usize)
    ensures
        final(out)@ == old(out)@ + flag_bytes(*flags, path_len as nat),
{
    let len_field: u16 = if path_len >= PATH_LEN as usize {
        PATH_LEN as u16
    } else {
        path_len as u16
    };
    push_be16(out, flags.to_storage() | len_field);
    if flags.contains(EXTENDED) {
        push_be16(out, flags.extended_storage());
    }
    assert(out@ =~= old(out)@ + flag_bytes(*flags, path_len as nat));
}

/// Append `path` to `out`, whole or relative to `previous`.
fn push_path(out: &mut Vec<u8>, path: &[u8], previous: Option<&[u8]>)
    ensures
        final(out)@ == old(out)@ + encoded_path(path@, opt_bytes(previous)),
{
    match previous {
        Some(previous) => {
            let common = common_prefix(previous, path);
            proof {
                lemma_common_prefix(previous@, path@);
            }
            let strip = previous.len() - common;
            push_offset(out, strip, false);
            push_range(out, path, common, path.len());
            assert(path@.subrange(common as int, path@.len() as int) =~= path@.skip(common as int));
            assert(out@ =~= old(out)@ + encoded_path(path@, opt_bytes(Some(previous))));
        },
        None => {
            push_all(out, path);
        },
    }
}

/// The common prefix is a prefix of both sequences, and as long as possible.
pub proof fn lemma_common_prefix(a: Seq<u8>, b: Seq<u8>)
    ensures
        common_prefix_len(a, b) <= a.len(),
        common_prefix_len(a, b) <= b.len(),
        a.take(common_prefix_len(a, b) as int) == b.take(common_prefix_len(a, b) as int),
        common_prefix_len(a, b) < a.len() && common_prefix_len(a, b) < b.len() ==> a[common_prefix_len(
            a,
            b,
        ) as int] != b[common_prefix_len(a, b) as int],
{
    lemma_common_prefix_from(a, b, 0);
    let c = common_prefix_len(a, b);
    assert(a.take(c as int) =~= b.take(c as int));
}

proof fn lemma_common_prefix_from(a: Seq<u8>, b: Seq<u8>, i: nat)
    requires
        i <= a.len(),
        i <= b.len(),
        forall|j: int| 0 <= j < i ==> a[j] == b[j],
    ensures
        i <= common_prefix_from(a, b, i) <= a.len(),
        common_prefix_from(a, b, i) <= b.len(),
        forall|j: int| 0 <= j < common_prefix_from(a, b, i) ==> a[j] == b[j],
        common_prefix_from(a, b, i) < a.len() && common_prefix_from(a, b, i) < b.len() ==> a[common_prefix_from(
            a,
            b,
            i,
        ) as int] != b[common_prefix_from(a, b, i) as int],
    decreases a.len() - i,
{
    if i < a.len() && i < b.len() && a[i as int] == b[i as int] {
        lemma_common_prefix_from(a, b, i + 1);
    }
}

/// Writing a path relative to the previous one loses nothing: a reader that strips
/// the encoded number of bytes from the end of the previous path and appends the
/// rest gets the path back.
pub proof fn lemma_prefix_compression_restores_path(previous: Seq<u8>, path: Seq<u8>)
    ensures
        ({
            let common = common_prefix_len(previous, path);
            let strip = (previous.len() - common) as nat;
            &&& strip <= previous.len()
            &&& previous.take(previous.len() - strip) + path.skip(common as int) == path
        }),
{
    lemma_common_prefix(previous, path);
    let common = common_prefix_len(previous, path);
    assert(previous.take(common as int) + path.skip(common as int) =~= path);
}

/// The number of bytes `a` and `b` share at their start.
pub fn common_prefix(a: &[u8], b: &[u8]) -> (n: usize)
    ensures
        n == common_prefix_len(a@, b@),
{
    let mut i: usize = 0;
    while i < a.len() && i < b.len() && a[i] == b[i]
        invariant
            i <= a@.len(),
            i <= b@.len(),
            common_prefix_len(a@, b@) == common_prefix_from(a@, b@, i as nat),
        decreases a.len() - i,
    {
        i = i + 1;
    }
    i
}

impl Entry {
    /// The entry's path lies within the state's path backing.
    pub open spec fn path_in_bounds(&self, state: &State) -> bool {
        self.path.start <= self.path.end <= state.path_backing@.len()
    }

    /// The entry's path, as stored in `state`.
    pub open spec fn spec_path(&self, state: &State) -> Seq<u8> {
        state.path_backing@.subrange(self.path.start as int, self.path.end as int)
    }

    /// The entry's path, looked up in `state`.
    pub fn path<'a>(&self, state: &'a State) -> (path: &'a [u8])
        requires
            self.path_in_bounds(state),
        ensures
            path@ == self.spec_path(state),
    {
        let backing = state.path_backing.as_slice();
        &backing[self.path.start..self.path.end]
    }

    /// Serialize ourselves in V2/V3 form to `out` with path access via `state`, without padding.
    pub fn write_to(&self, out: &mut Vec<u8>, state: &State)
        requires
            self.path_in_bounds(state),
        ensures
            final(out)@ == old(out)@ + entry_bytes(*self, self.spec_path(state), None),
    {
        self.write_with_previous_path(out, state, None)
    }

    /// Serialize ourselves to `out` with path access via `state`, without padding: in
    /// V2/V3 form if `previous` is `None`, and otherwise in V4 form, with the path
    /// written relative to `previous`, the path of the entry written before.
    #[verifier::spinoff_prover]
    pub fn write_with_previous_path(&self, out: &mut Vec<u8>, state: &State, previous: Option<&[u8]>)
        requires
            self.path_in_bounds(state),
        ensures
            final(out)@ == old(out)@ + entry_bytes(*self, self.spec_path(state), opt_bytes(previous)),
    {
        push_stat(out, self);
        push_all(out, self.id.as_bytes());
        let path = self.path(state);
        push_flags(out, &self.flags, path.len());
        push_path(out, path, previous);
        out.push(0u8);
        assert(out@ =~= old(out)@ + entry_bytes(*self, self.spec_path(state), opt_bytes(previous)));
    }
}

// ---------------------------------------------------------------------------
// What a reader finds in a written entry
// ---------------------------------------------------------------------------

proof fn lemma_read_be32_at(b: Seq<u8>, i: int, v: u32)
    requires
        0 <= i,
        i + 4 <= b.len(),
        b.subrange(i, i + 4) == be32(v),
    ensures
        read_be32(b, i) == v,
{
    lemma_read_be32(v);
    assert(b[i] == be32(v)[0]);
    assert(b[i + 1] == be32(v)[1]);
    assert(b[i + 2] == be32(v)[2]);
    assert(b[i + 3] == be32(v)[3]);
}

proof fn lemma_read_be16_at(b: Seq<u8>, i: int, v: u16)
    requires
        0 <= i,
        i + 2 <= b.len(),
        b.subrange(i, i + 2) == be16(v),
    ensures
        read_be16(b, i) == v,
{
    lemma_read_be16(v);
    assert(b[i] == be16(v)[0]);
    assert(b[i + 1] == be16(v)[1]);
}

proof fn lemma_flag_word_bits(bits: u32, len_field: u16)
    requires
        len_field <= 0xfff,
    ensures
        ((bits & 0xffff) as u16 | len_field) / 0x1000 == (bits / 0x1000) % 16,
        bits % 0x1000 == 0 ==> ((bits & 0xffff) as u16 | len_field) % 0x1000 == len_field,
        (bits & 0x4000 == 0x4000) == (bits & 0x4000 != 0),
        ((bits & 0x6000_0000) >> 16u32) as u16 == (if bits & 0x2000_0000 != 0 {
            0x2000u16
        } else {
            0u16
        }) + (if bits & 0x4000_0000 != 0 {
            0x4000u16
        } else {
            0u16
        }),
{
    assert(((bits & 0xffff) as u16 | len_field) / 0x1000 == (bits / 0x1000) % 16) by (bit_vector)
        requires
            len_field <= 0xfff,
    ;
    assert(bits % 0x1000 == 0 ==> ((bits & 0xffff) as u16 | len_field) % 0x1000 == len_field)
        by (bit_vector)
        requires
            len_field <= 0xfff,
    ;
    assert((bits & 0x4000 == 0x4000) == (bits & 0x4000 != 0)) by (bit_vector);
    assert(((bits & 0x6000_0000) >> 16u32) as u16 == (if bits & 0x2000_0000 != 0 {
        0x2000u16
    } else {
        0u16
    }) + (if bits & 0x4000_0000 != 0 {
        0x4000u16
    } else {
        0u16
    })) by (bit_vector);
}

proof fn lemma_stat_words(entry: Entry)
    ensures
        stat_bytes(entry).len() == 40,
        read_be32(stat_bytes(entry), 0) == entry.stat.ctime.secs,
        read_be32(stat_bytes(entry), 4) == entry.stat.ctime.nsecs,
        read_be32(stat_bytes(entry), 8) == entry.stat.mtime.secs,
        read_be32(stat_bytes(entry), 12) == entry.stat.mtime.nsecs,
        read_be32(stat_bytes(entry), 16) == entry.stat.dev,
        read_be32(stat_bytes(entry), 20) == entry.stat.ino,
        read_be32(stat_bytes(entry), 24) == entry.mode.bits,
        read_be32(stat_bytes(entry), 28) == entry.stat.uid,
        read_be32(stat_bytes(entry), 32) == entry.stat.gid,
        read_be32(stat_bytes(entry), 36) == entry.stat.size,
{
    let st = entry.stat;
    let s = stat_bytes(entry);
    let f = seq![
        st.ctime.secs,
        st.ctime.nsecs,
        st.mtime.secs,
        st.mtime.nsecs,
        st.dev,
        st.ino,
        entry.mode.bits,
        st.uid,
        st.gid,
        st.size,
    ];
    assert forall|k: int| 0 <= k < 10 implies (#[trigger] f[k]) == f[k] && be32(f[k]).len() == 4 by {
        lemma_read_be32(f[k]);
    }
    assert(s.len() == 40);
    assert forall|k: int| 0 <= k < 10 implies read_be32(s, 4 * k) == #[trigger] f[k] by {
        assert(s.subrange(4 * k, 4 * k + 4) =~= be32(f[k]));
        lemma_read_be32_at(s, 4 * k, f[k]);
    }
    assert(f[0] == st.ctime.secs);
    assert(read_be32(s, 4 * 0int) == f[0]);
    assert(read_be32(s, 4 * 1int) == f[1]);
    assert(read_be32(s, 4 * 2int) == f[2]);
    assert(read_be32(s, 4 * 3int) == f[3]);
    assert(read_be32(s, 4 * 4int) == f[4]);
    assert(read_be32(s, 4 * 5int) == f[5]);
    assert(read_be32(s, 4 * 6int) == f[6]);
    assert(read_be32(s, 4 * 7int) == f[7]);
    assert(read_be32(s, 4 * 8int) == f[8]);
    assert(read_be32(s, 4 * 9int) == f[9]);
}

/// What a reader finds in a written entry. The ten 32-bit words that start it read back
/// as the stat information and mode; the object id follows them byte for byte; the
/// 16-bit flags field keeps the stage, assume-valid and extended bits of the flags in its
/// top four bits and, if the flags' own length bits are clear, holds the path length,
/// capped at `0xfff`, in its low twelve bits; an entry with the extended flag has a second
/// field with the intent-to-add and skip-worktree bits; then comes the path, whole, or for
/// index version 4 as a framed offset that, stripped from the end of the previous path,
/// leaves the prefix to which the rest of the bytes append to give the path; and a NUL
/// byte ends it.
#[verifier::spinoff_prover]
pub proof fn lemma_entry_layout(entry: Entry, path: Seq<u8>, previous: Option<Seq<u8>>)
    ensures
        ({
            let b = entry_bytes(entry, path, previous);
            let n = entry.id@.len() as int;
            let bits = entry.flags.bits;
            let start = 42 + n + if bits & 0x4000 != 0 {
                2int
            } else {
                0int
            };
            &&& start + 1 <= b.len()
            &&& b.last() == 0
            &&& read_be32(b, 0) == entry.stat.ctime.secs
            &&& read_be32(b, 4) == entry.stat.ctime.nsecs
            &&& read_be32(b, 8) == entry.stat.mtime.secs
            &&& read_be32(b, 12) == entry.stat.mtime.nsecs
            &&& read_be32(b, 16) == entry.stat.dev
            &&& read_be32(b, 20) == entry.stat.ino
            &&& read_be32(b, 24) == entry.mode.bits
            &&& read_be32(b, 28) == entry.stat.uid
            &&& read_be32(b, 32) == entry.stat.gid
            &&& read_be32(b, 36) == entry.stat.size
            &&& b.subrange(40, 40 + n) == entry.id@
            &&& read_be16(b, 40 + n) / 0x1000 == (bits / 0x1000) % 16
            &&& bits % 0x1000 == 0 ==> read_be16(b, 40 + n) % 0x1000 == if path.len() >= 0xfff {
                0xfff
            } else {
                path.len() as int
            }
            &&& bits & 0x4000 != 0 ==> read_be16(b, 42 + n) == (if bits & 0x2000_0000 != 0 {
                0x2000int
            } else {
                0int
            }) + (if bits & 0x4000_0000 != 0 {
                0x4000int
            } else {
                0int
            })
            &&& previous is None ==> b.subrange(start, b.len() - 1) == path
            &&& previous matches Some(prev) ==> {
                let part = b.subrange(start, b.len() - 1);
                let k = offset_len(part);
                &&& 0 < k <= part.len()
                &&& offset_framed(part.take(k))
                &&& offset_value(part.take(k)) <= prev.len()
                &&& prev.take(prev.len() - offset_value(part.take(k))) + part.skip(k) == path
            }
        }),
{
    lemma_entry_head(entry, path, previous);
    lemma_entry_flags(entry, path, previous);
    lemma_entry_path(entry, path, previous);
}

/// The flags word that is written for `entry` with a path of `path_len` bytes.
spec fn flag_word(entry: Entry, path_len: nat) -> u16 {
    (spec_storage_flags(entry.flags) | path_len_field(path_len)) as u16
}

/// The extended flags field written for `entry`, or nothing.
spec fn ext_bytes(entry: Entry) -> Seq<u8> {
    if entry.flags.bits & EXTENDED == EXTENDED {
        be16(spec_extended_flags(entry.flags))
    } else {
        Seq::empty()
    }
}

proof fn lemma_entry_split(entry: Entry, path: Seq<u8>, previous: Option<Seq<u8>>)
    ensures
        entry_bytes(entry, path, previous) == stat_bytes(entry) + entry.id@ + (be16(
            flag_word(entry, path.len()),
        ) + ext_bytes(entry)) + encoded_path(path, previous) + seq![0u8],
        stat_bytes(entry).len() == 40,
        be16(flag_word(entry, path.len())).len() == 2,
        ext_bytes(entry).len() == if entry.flags.bits & 0x4000 != 0 {
            2int
        } else {
            0int
        },
{
    let bits = entry.flags.bits;
    assert((bits & 0x4000 == 0x4000) == (bits & 0x4000 != 0)) by (bit_vector);
    assert(flag_bytes(entry.flags, path.len()) == be16(flag_word(entry, path.len())) + ext_bytes(
        entry,
    ));
}

#[verifier::spinoff_prover]
proof fn lemma_entry_head(entry: Entry, path: Seq<u8>, previous: Option<Seq<u8>>)
    ensures
        ({
            let b = entry_bytes(entry, path, previous);
            let n = entry.id@.len() as int;
            &&& 42 + n <= b.len()
            &&& read_be32(b, 0) == entry.stat.ctime.secs
            &&& read_be32(b, 4) == entry.stat.ctime.nsecs
            &&& read_be32(b, 8) == entry.stat.mtime.secs
            &&& read_be32(b, 12) == entry.stat.mtime.nsecs
            &&& read_be32(b, 16) == entry.stat.dev
            &&& read_be32(b, 20) == entry.stat.ino
            &&& read_be32(b, 24) == entry.mode.bits
            &&& read_be32(b, 28) == entry.stat.uid
            &&& read_be32(b, 32) == entry.stat.gid
            &&& read_be32(b, 36) == entry.stat.size
            &&& b.subrange(40, 40 + n) == entry.id@
        }),
{
    let b = entry_bytes(entry, path, previous);
    let n = entry.id@.len() as int;
    let st = stat_bytes(entry);
    lemma_entry_split(entry, path, previous);
    lemma_stat_words(entry);
    assert forall|i: int| 0 <= i < 40 implies b[i] == st[i] by {}
    assert(read_be32(b, 0) == read_be32(st, 0));
    assert(read_be32(b, 4) == read_be32(st, 4));
    assert(read_be32(b, 8) == read_be32(st, 8));
    assert(read_be32(b, 12) == read_be32(st, 12));
    assert(read_be32(b, 16) == read_be32(st, 16));
    assert(read_be32(b, 20) == read_be32(st, 20));
    assert(read_be32(b, 24) == read_be32(st, 24));
    assert(read_be32(b, 28) == read_be32(st, 28));
    assert(read_be32(b, 32) == read_be32(st, 32));
    assert(read_be32(b, 36) == read_be32(st, 36));
    assert(b.subrange(40, 40 + n) =~= entry.id@);
}

#[verifier::spinoff_prover]
proof fn lemma_entry_flags(entry: Entry, path: Seq<u8>, previous: Option<Seq<u8>>)
    ensures
        ({
            let b = entry_bytes(entry, path, previous);
            let n = entry.id@.len() as int;
            let bits = entry.flags.bits;
            &&& read_be16(b, 40 + n) / 0x1000 == (bits / 0x1000) % 16
            &&& bits % 0x1000 == 0 ==> read_be16(b, 40 + n) % 0x1000 == if path.len() >= 0xfff {
                0xfff
            } else {
                path.len() as int
            }
            &&& bits & 0x4000 != 0 ==> read_be16(b, 42 + n) == (if bits & 0x2000_0000 != 0 {
                0x2000int
            } else {
                0int
            }) + (if bits & 0x4000_0000 != 0 {
                0x4000int
            } else {
                0int
            })
        }),
{
    let b = entry_bytes(entry, path, previous);
    let n = entry.id@.len() as int;
    let bits = entry.flags.bits;
    let word = flag_word(entry, path.len());
    lemma_entry_split(entry, path, previous);
    lemma_flag_word_bits(bits, path_len_field(path.len()));
    assert((PATH_LEN | STAGE_MASK | ASSUME_VALID | EXTENDED) == 0xffffu32) by (bit_vector);
    assert((INTENT_TO_ADD | SKIP_WORKTREE) == 0x6000_0000u32) by (bit_vector);
    assert(word == ((bits & 0xffff) as u16 | path_len_field(path.len())));
    lemma_read_be16(word);
    assert(b.subrange(40 + n, 42 + n) =~= be16(word));
    lemma_read_be16_at(b, 40 + n, word);
    if bits & 0x4000 != 0 {
        let e = spec_extended_flags(entry.flags);
        lemma_read_be16(e);
        assert(ext_bytes(entry) == be16(e));
        assert(b.subrange(42 + n, 44 + n) =~= be16(e));
        lemma_read_be16_at(b, 42 + n, e);
    }
}

#[verifier::spinoff_prover]
proof fn lemma_entry_path(entry: Entry, path: Seq<u8>, previous: Option<Seq<u8>>)
    ensures
        ({
            let b = entry_bytes(entry, path, previous);
            let n = entry.id@.len() as int;
            let start = 42 + n + if entry.flags.bits & 0x4000 != 0 {
                2int
            } else {
                0int
            };
            &&& start + 1 <= b.len()
            &&& b.last() == 0
            &&& previous is None ==> b.subrange(start, b.len() - 1) == path
            &&& previous matches Some(prev) ==> {
                let part = b.subrange(start, b.len() - 1);
                let k = offset_len(part);
                &&& 0 < k <= part.len()
                &&& offset_framed(part.take(k))
                &&& offset_value(part.take(k)) <= prev.len()
                &&& prev.take(prev.len() - offset_value(part.take(k))) + part.skip(k) == path
            }
        }),
{
    let b = entry_bytes(entry, path, previous);
    let n = entry.id@.len() as int;
    let part = encoded_path(path, previous);
    lemma_entry_split(entry, path, previous);
    let start = 42 + n + ext_bytes(entry).len();
    assert(b.subrange(start, b.len() - 1) =~= part);
    if let Some(prev) = previous {
        let common = common_prefix_len(prev, path);
        let strip = (prev.len() - common) as nat;
        lemma_common_prefix(prev, path);
        lemma_offset_roundtrip(strip);
        lemma_prefix_compression_restores_path(prev, path);
        let o = offset_bytes(strip, false);
        lemma_offset_len_of_framed(o, path.skip(common as int));
        assert(part == o + path.skip(common as int));
    }
}

} // verus!
