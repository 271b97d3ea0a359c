//! The resolve-undo (`REUC`) extension of the index: for paths whose merge conflict was
//! resolved, the modes and ids that the conflicting stages had, so that the conflict can
//! be restored.

use vstd::prelude::*;

use crate::encoding::{
    be32, is_octal_digit, lemma_octal_spelling, lemma_parse_octal_of_octal, octal,
    parse_octal_range, parse_octal_u32, push_all, push_be32, push_octal,
};
use crate::hash::{spec_len_in_bytes, HashKind, ObjectId};

verus! {

/// All paths of the extension, in the order they are stored.
pub type Paths = Vec<ResolvePath>;

/// The conflict stages of one path before its conflict was resolved.
#[derive(Clone, Debug)]
pub struct ResolvePath {
    /// relative to the root of the repository, or what would be stored in the index
    pub name: Vec<u8>,
    /// 0 = ancestor/common, 1 = ours, 2 = theirs
    pub stages: [Option<Stage>; 3],
}

/// One conflict stage: the file mode and the id of the object.
#[derive(Clone, Debug)]
pub struct Stage {
    /// The file mode of the stage.
    pub mode: u32,
    /// The id of the stage's object.
    pub id: ObjectId,
}

/// The value of a stage.
pub struct StageModel {
    /// The file mode.
    pub mode: u32,
    /// The bytes of the object id.
    pub id: Seq<u8>,
}

/// The value of a resolve-undo path.
pub struct ResolvePathModel {
    /// The path's bytes.
    pub name: Seq<u8>,
    /// The three stages, each present or not.
    pub stages: Seq<Option<StageModel>>,
}

/// The value of an optional stage.
pub open spec fn stage_model(stage: Option<Stage>) -> Option<StageModel> {
    match stage {
        Some(s) => Some(s@),
        None => None,
    }
}

impl View for Stage {
    type V = StageModel;

    open spec fn view(&self) -> StageModel {
        StageModel { mode: self.mode, id: self.id@ }
    }
}

impl View for ResolvePath {
    type V = ResolvePathModel;

    open spec fn view(&self) -> ResolvePathModel {
        ResolvePathModel {
            name: self.name@,
            stages: self.stages@.map_values(|s: Option<Stage>| stage_model(s)),
        }
    }
}

/// The values of a sequence of paths.
pub open spec fn paths_model(paths: Seq<ResolvePath>) -> Seq<ResolvePathModel> {
    paths.map_values(|p: ResolvePath| p@)
}

/// The signature that starts the extension, `REUC`.
pub const SIGNATURE: [u8; 4] = [82u8, 69u8, 85u8, 67u8];

/// The signature that starts the extension.
pub open spec fn signature() -> Seq<u8> {
    SIGNATURE@
}

// ---------------------------------------------------------------------------
// Decoding
// ---------------------------------------------------------------------------

/// `s[i]` is the first NUL byte of `s`.
pub open spec fn nul_at(s: Seq<u8>, i: int) -> bool {
    &&& 0 <= i < s.len()
    &&& s[i] == 0
    &&& forall|j: int| 0 <= j < i ==> s[j] != 0
}

/// `s` split at its first NUL byte into the bytes before it and those after it.
pub open spec fn split_at_nul(s: Seq<u8>) -> Option<(Seq<u8>, Seq<u8>)> {
    if exists|i: int| nul_at(s, i) {
        let i = choose|i: int| nul_at(s, i);
        Some((s.take(i), s.skip(i + 1)))
    } else {
        None
    }
}

/// A NUL-terminated octal mode at the start of `s`, and what follows it.
pub open spec fn parse_mode_field(s: Seq<u8>) -> Option<(u32, Seq<u8>)> {
    match split_at_nul(s) {
        Some((field, rest)) => match parse_octal_u32(field) {
            Some(mode) => Some((mode, rest)),
            None => None,
        },
        None => None,
    }
}

/// The stage with `mode` whose id of `hash_len` bytes starts `s`, and what follows it;
/// mode 0 marks a missing stage, which has no id.
pub open spec fn parse_stage(mode: u32, s: Seq<u8>, hash_len: nat) -> Option<(Option<StageModel>, Seq<u8>)> {
    if mode == 0 {
        Some((None, s))
    } else if s.len() >= hash_len {
        Some((Some(StageModel { mode, id: s.take(hash_len as int) }), s.skip(hash_len as int)))
    } else {
        None
    }
}

/// The three NUL-terminated octal modes at the start of `s`, and what follows them.
pub open spec fn parse_modes(s: Seq<u8>) -> Option<((u32, u32, u32), Seq<u8>)> {
    match parse_mode_field(s) {
        None => None,
        Some((m0, r1)) => match parse_mode_field(r1) {
            None => None,
            Some((m1, r2)) => match parse_mode_field(r2) {
                None => None,
                Some((m2, r3)) => Some(((m0, m1, m2), r3)),
            },
        },
    }
}

/// The three stages with `modes` whose ids start `s`, and what follows them.
pub open spec fn parse_stages(modes: (u32, u32, u32), s: Seq<u8>, hash_len: nat) -> Option<
    (Seq<Option<StageModel>>, Seq<u8>),
> {
    match parse_stage(modes.0, s, hash_len) {
        None => None,
        Some((s0, r1)) => match parse_stage(modes.1, r1, hash_len) {
            None => None,
            Some((s1, r2)) => match parse_stage(modes.2, r2, hash_len) {
                None => None,
                Some((s2, r3)) => Some((seq![s0, s1, s2], r3)),
            },
        },
    }
}

/// The path record at the start of `s`, and what follows it: the NUL-terminated name,
/// three NUL-terminated octal modes, and the ids of the stages whose mode is not 0.
pub open spec fn parse_record(s: Seq<u8>, hash_len: nat) -> Option<(ResolvePathModel, Seq<u8>)> {
    match split_at_nul(s) {
        None => None,
        Some((name, r0)) => match parse_modes(r0) {
            None => None,
            Some((modes, r1)) => match parse_stages(modes, r1, hash_len) {
                None => None,
                Some((stages, r2)) => Some((ResolvePathModel { name, stages }, r2)),
            },
        },
    }
}

/// The paths that decoding the extension data `s` yields: records one after the other
/// until the data ends, or nothing if any record is malformed.
pub open spec fn spec_decode(s: Seq<u8>, hash_len: nat) -> Option<Seq<ResolvePathModel>>
    decreases s.len(),
    via spec_decode_decreases
{
    if s.len() == 0 {
        Some(Seq::empty())
    } else {
        match parse_record(s, hash_len) {
            None => None,
            Some((path, rest)) => match spec_decode(rest, hash_len) {
                None => None,
                Some(paths) => Some(seq![path] + paths),
            },
        }
    }
}

#[via_fn]
proof fn spec_decode_decreases(s: Seq<u8>, hash_len: nat) {
    if s.len() != 0 {
        lemma_parse_record_consumes(s, hash_len);
    }
}

/// There is at most one first NUL byte.
proof fn lemma_nul_at_unique(s: Seq<u8>, a: int, b: int)
    requires
        nul_at(s, a),
        nul_at(s, b),
    ensures
        a == b,
{
    if a < b {
        assert(s[a] != 0);
    } else if b < a {
        assert(s[b] != 0);
    }
}

/// Splitting at the first NUL byte.
proof fn lemma_split_at_nul(s: Seq<u8>, i: int)
    requires
        nul_at(s, i),
    ensures
        split_at_nul(s) == Some((s.take(i), s.skip(i + 1))),
{
    let c = choose|c: int| nul_at(s, c);
    lemma_nul_at_unique(s, c, i);
}

/// The part after the first NUL byte is shorter than the whole.
proof fn lemma_split_at_nul_shorter(s: Seq<u8>)
    ensures
        split_at_nul(s) matches Some((a, rest)) ==> rest.len() < s.len() && a.len() < s.len(),
{
    if exists|i: int| nul_at(s, i) {
        let i = choose|i: int| nul_at(s, i);
        lemma_split_at_nul(s, i);
    }
}

/// Parsing a record consumes at least one byte.
proof fn lemma_parse_record_consumes(s: Seq<u8>, hash_len: nat)
    ensures
        parse_record(s, hash_len) matches Some((_, rest)) ==> rest.len() < s.len(),
{
    lemma_split_at_nul_shorter(s);
    if let Some((_, r0)) = split_at_nul(s) {
        lemma_split_at_nul_shorter(r0);
        if let Some((_, r1)) = split_at_nul(r0) {
            lemma_split_at_nul_shorter(r1);
            if let Some((_, r2)) = split_at_nul(r1) {
                lemma_split_at_nul_shorter(r2);
            }
        }
    }
}

proof fn lemma_skip_skip(s: Seq<u8>, a: int, b: int)
    requires
        0 <= a,
        0 <= b,
        a + b <= s.len(),
    ensures
        s.skip(a).skip(b) == s.skip(a + b),
{
    assert(s.skip(a).skip(b) =~= s.skip(a + b));
}

/// Find the first NUL byte at or after `from`.
fn find_nul(data: &[u8], from: usize) -> (r: Option<usize>)
    requires
        from <= data@.len(),
    ensures
        match r {
            Some(j) => from <= j < data@.len() && split_at_nul(data@.skip(from as int)) == Some(
                (data@.subrange(from as int, j as int), data@.skip(j + 1)),
            ),
            None => split_at_nul(data@.skip(from as int)) is None,
        },
{
    let ghost s = data@.skip(from as int);
    let mut i = from;
    while i < data.len()
        invariant
            from <= i <= data@.len(),
            s == data@.skip(from as int),
            forall|k: int| from <= k < i ==> data@[k] != 0,
        decreases data.len() - i,
    {
        if data[i] == 0 {
            proof {
                assert(nul_at(s, i - from));
                lemma_split_at_nul(s, i - from);
                assert(s.take(i - from) =~= data@.subrange(from as int, i as int));
                lemma_skip_skip(data@, from as int, i - from + 1);
            }
            return Some(i);
        }
        i = i + 1;
    }
    assert forall|k: int| !nul_at(s, k) by {
        if 0 <= k < s.len() {
            assert(s[k] == data@[from + k]);
        }
    }
    None
}

/// Parse the NUL-terminated octal mode that starts at `from`; returns it and where the rest starts.
fn parse_mode_at(data: &[u8], from: usize) -> (r: Option<(u32, usize)>)
    requires
        from <= data@.len(),
    ensures
        match r {
            Some((mode, next)) => from < next <= data@.len() && parse_mode_field(data@.skip(from as int))
                == Some((mode, data@.skip(next as int))),
            None => parse_mode_field(data@.skip(from as int)) is None,
        },
{
    match find_nul(data, from) {
        None => None,
        Some(end) => match parse_octal_range(data, from, end) {
            None => None,
            Some(mode) => {
                assert(end < data.len());
                Some((mode, end + 1))
            },
        },
    }
}

/// Read the stage with `mode` whose id starts at `from`; returns it and where the rest starts.
fn take_stage(data: &[u8], from: usize, mode: u32, hash_len: usize) -> (r: Option<(Option<Stage>, usize)>)
    requires
        from <= data@.len(),
        hash_len == 20 || hash_len == 32,
    ensures
        match r {
            Some((stage, next)) => from <= next <= data@.len() && parse_stage(
                mode,
                data@.skip(from as int),
                hash_len as nat,
            ) == Some((stage_model(stage), data@.skip(next as int))),
            None => parse_stage(mode, data@.skip(from as int), hash_len as nat) is None,
        },
{
    if mode == 0 {
        return Some((None, from));
    }
    if data.len() - from < hash_len {
        return None;
    }
    let (_, rest) = data.split_at(from);
    let (hash, _) = rest.split_at(hash_len);
    let id = ObjectId::from_bytes_or_panic(hash);
    proof {
        assert(hash@ =~= data@.skip(from as int).take(hash_len as int));
        lemma_skip_skip(data@, from as int, hash_len as int);
    }
    Some((Some(Stage { mode, id }), from + hash_len))
}

/// Parse the path record that starts at `from`; returns it and where the rest starts.
#[verifier::spinoff_prover]
fn parse_record_at(data: &[u8], from: usize, hash_len: usize) -> (r: Option<(ResolvePath, usize)>)
    requires
        from <= data@.len(),
        hash_len == 20 || hash_len == 32,
    ensures
        match r {
            Some((path, next)) => from < next <= data@.len() && parse_record(
                data@.skip(from as int),
                hash_len as nat,
            ) == Some((path@, data@.skip(next as int))),
            None => parse_record(data@.skip(from as int), hash_len as nat) is None,
        },
{
    let name_end = match find_nul(data, from) {
        None => return None,
        Some(end) => end,
    };
    assert(name_end < data.len());
    let mut name: Vec<u8> = Vec::new();
    crate::encoding::push_range(&mut name, data, from, name_end);
    assert(name@ =~= data@.subrange(from as int, name_end as int));
    let (m0, p1) = match parse_mode_at(data, name_end + 1) {
        None => return None,
        Some(r) => r,
    };
    let (m1, p2) = match parse_mode_at(data, p1) {
        None => return None,
        Some(r) => r,
    };
    let (m2, p3) = match parse_mode_at(data, p2) {
        None => return None,
        Some(r) => r,
    };
    let (s0, p4) = match take_stage(data, p3, m0, hash_len) {
        None => return None,
        Some(r) => r,
    };
    let (s1, p5) = match take_stage(data, p4, m1, hash_len) {
        None => return None,
        Some(r) => r,
    };
    let (s2, p6) = match take_stage(data, p5, m2, hash_len) {
        None => return None,
        Some(r) => r,
    };
    let ghost (g0, g1, g2) = (stage_model(s0), stage_model(s1), stage_model(s2));
    assert(parse_modes(data@.skip(name_end + 1)) == Some(((m0, m1, m2), data@.skip(p3 as int))));
    assert(parse_stages((m0, m1, m2), data@.skip(p3 as int), hash_len as nat) == Some(
        (seq![g0, g1, g2], data@.skip(p6 as int)),
    ));
    let path = ResolvePath { name, stages: [s0, s1, s2] };
    assert(path@.stages =~= seq![g0, g1, g2]);
    Some((path, p6))
}

/// Decode the resolve-undo extension data `data`, whose object ids are of kind `object_hash`.
#[verifier::spinoff_prover]
pub fn decode(data: &[u8], object_hash: HashKind) -> (paths: Option<Paths>)
    ensures
        match paths {
            Some(paths) => spec_decode(data@, spec_len_in_bytes(object_hash)) == Some(
                paths_model(paths@),
            ),
            None => spec_decode(data@, spec_len_in_bytes(object_hash)) is None,
        },
{
    let hash_len = object_hash.len_in_bytes();
    let ghost h = hash_len as nat;
    let mut out: Vec<ResolvePath> = Vec::new();
    let mut pos: usize = 0;
    proof {
        assert(data@.skip(0) =~= data@);
        if let Some(rest) = spec_decode(data@, h) {
            assert(paths_model(out@) + rest =~= rest);
        }
    }
    while pos < data.len()
        invariant
            pos <= data@.len(),
            h == spec_len_in_bytes(object_hash),
            hash_len == h,
            hash_len == 20 || hash_len == 32,
            spec_decode(data@, h) == match spec_decode(data@.skip(pos as int), h) {
                Some(rest) => Some(paths_model(out@) + rest),
                None => None::<Seq<ResolvePathModel>>,
            },
        decreases data.len() - pos,
    {
        let ghost before = out@;
        match parse_record_at(data, pos, hash_len) {
            None => {
                return None;
            },
            Some((path, next)) => {
                out.push(path);
                pos = next;
                assert(paths_model(out@) =~= paths_model(before) + seq![path@]);
            },
        }
    }
    assert(data@.skip(pos as int) =~= Seq::<u8>::empty());
    assert(paths_model(out@) + Seq::<ResolvePathModel>::empty() =~= paths_model(out@));
    Some(out)
}

// ---------------------------------------------------------------------------
// Encoding
// ---------------------------------------------------------------------------

/// The mode written for an optional stage: its mode, or 0 if it is missing.
pub open spec fn stage_mode(stage: Option<StageModel>) -> u32 {
    match stage {
        Some(s) => s.mode,
        None => 0,
    }
}

/// The id bytes written for an optional stage: its id, or nothing if it is missing.
pub open spec fn stage_id(stage: Option<StageModel>) -> Seq<u8> {
    match stage {
        Some(s) => s.id,
        None => Seq::empty(),
    }
}

/// The bytes of one path record: the NUL-terminated name, the three modes in octal,
/// each NUL-terminated, and the ids of the present stages.
pub open spec fn record_bytes(path: ResolvePathModel) -> Seq<u8> {
    path.name + seq![0u8] + octal(stage_mode(path.stages[0]) as nat) + seq![0u8] + octal(
        stage_mode(path.stages[1]) as nat,
    ) + seq![0u8] + octal(stage_mode(path.stages[2]) as nat) + seq![0u8] + stage_id(path.stages[0])
        + stage_id(path.stages[1]) + stage_id(path.stages[2])
}

/// The extension data for `paths`: their records one after the other.
pub open spec fn entries_bytes(paths: Seq<ResolvePathModel>) -> Seq<u8>
    decreases paths.len(),
{
    if paths.len() == 0 {
        Seq::empty()
    } else {
        record_bytes(paths[0]) + entries_bytes(paths.drop_first())
    }
}

/// The whole extension for `paths`: the signature, the size of the data as a big-endian
/// 32-bit number, and the data.
pub open spec fn extension_bytes(paths: Seq<ResolvePathModel>) -> Seq<u8> {
    signature() + be32(entries_bytes(paths).len() as u32) + entries_bytes(paths)
}

/// The reason writing the extension failed.
#[derive(Debug, PartialEq, Eq)]
pub enum WriteError {
    /// The extension data does not fit the 32-bit size field ("resolve-undo extension exceeds 4GB").
    TooLarge,
}

proof fn lemma_entries_bytes_push(paths: Seq<ResolvePathModel>, path: ResolvePathModel)
    ensures
        entries_bytes(paths.push(path)) == entries_bytes(paths) + record_bytes(path),
    decreases paths.len(),
{
    if paths.len() == 0 {
        assert(paths.push(path).drop_first() =~= Seq::<ResolvePathModel>::empty());
        assert(entries_bytes(Seq::<ResolvePathModel>::empty()) =~= Seq::<u8>::empty());
        assert(paths.push(path)[0] == path);
        assert(entries_bytes(paths.push(path)) =~= record_bytes(path));
    } else {
        lemma_entries_bytes_push(paths.drop_first(), path);
        assert(paths.push(path).drop_first() =~= paths.drop_first().push(path));
        assert(entries_bytes(paths.push(path)) =~= entries_bytes(paths) + record_bytes(path));
    }
}

/// Append the mode of an optional stage in octal, then a NUL byte.
fn push_stage_mode(out: &mut Vec<u8>, stage: &Option<Stage>)
    ensures
        final(out)@ == old(out)@ + octal(stage_mode(stage_model(*stage)) as nat) + seq![0u8],
{
    match stage {
        Some(s) => push_octal(out, s.mode),
        None => push_octal(out, 0),
    }
    out.push(0u8);
}

/// Append the id of an optional stage, if it is present.
fn push_stage_id(out: &mut Vec<u8>, stage: &Option<Stage>)
    ensures
        final(out)@ == old(out)@ + stage_id(stage_model(*stage)),
{
    match stage {
        Some(s) => push_all(out, s.id.as_bytes()),
        None => {
            assert(out@ =~= old(out)@ + stage_id(stage_model(*stage)));
        },
    }
}

/// Append the record of `path`.
fn push_record(out: &mut Vec<u8>, path: &ResolvePath)
    ensures
        final(out)@ == old(out)@ + record_bytes(path@),
{
    push_all(out, path.name.as_slice());
    out.push(0u8);
    push_stage_mode(out, &path.stages[0]);
    push_stage_mode(out, &path.stages[1]);
    push_stage_mode(out, &path.stages[2]);
    push_stage_id(out, &path.stages[0]);
    push_stage_id(out, &path.stages[1]);
    push_stage_id(out, &path.stages[2]);
    assert(out@ =~= old(out)@ + record_bytes(path@));
}

/// Write the resolve-undo extension for `paths` to `out`: the signature, the size of
/// the data, and the data. Fails, leaving `out` as it was, if the data is too large for
/// its 32-bit size field.
#[verifier::spinoff_prover]
pub fn write_to(paths: &[ResolvePath], out: &mut Vec<u8>) -> (r: Result<(), WriteError>)
    ensures
        r is Ok <==> entries_bytes(paths_model(paths@)).len() <= u32::MAX,
        r is Ok ==> final(out)@ == old(out)@ + extension_bytes(paths_model(paths@)),
        r is Err ==> final(out)@ == old(out)@,
{
    let mut entries: Vec<u8> = Vec::new();
    let mut i: usize = 0;
    while i < paths.len()
        invariant
            i <= paths@.len(),
            entries@ == entries_bytes(paths_model(paths@.take(i as int))),
        decreases paths.len() - i,
    {
        push_record(&mut entries, &paths[i]);
        proof {
            lemma_entries_bytes_push(paths_model(paths@.take(i as int)), paths@[i as int]@);
            assert(paths_model(paths@.take(i + 1)) =~= paths_model(paths@.take(i as int)).push(
                paths@[i as int]@,
            ));
        }
        i = i + 1;
    }
    assert(paths@.take(paths@.len() as int) =~= paths@);
    if entries.len() > u32::MAX as usize {
        return Err(WriteError::TooLarge);
    }
    let size = entries.len() as u32;
    push_all(out, SIGNATURE.as_slice());
    push_be32(out, size);
    push_all(out, entries.as_slice());
    assert(out@ =~= old(out)@ + extension_bytes(paths_model(paths@)));
    Ok(())
}

// ---------------------------------------------------------------------------
// Laws
// ---------------------------------------------------------------------------

/// A path that survives being written and decoded again: its name holds no NUL byte,
/// it has three stages, and each present stage has a mode other than 0 and an id of
/// `hash_len` bytes.
pub open spec fn roundtrips(path: ResolvePathModel, hash_len: nat) -> bool {
    &&& forall|i: int| 0 <= i < path.name.len() ==> path.name[i] != 0
    &&& path.stages.len() == 3
    &&& forall|k: int|
        0 <= k < 3 ==> (#[trigger] path.stages[k] matches Some(s) ==> s.mode != 0 && s.id.len()
            == hash_len)
}

proof fn lemma_parse_mode_field_of_octal(m: u32, rest: Seq<u8>)
    ensures
        parse_mode_field(octal(m as nat) + seq![0u8] + rest) == Some((m, rest)),
{
    let digits = octal(m as nat);
    let s = digits + seq![0u8] + rest;
    lemma_octal_spelling(m as nat);
    lemma_parse_octal_of_octal(m);
    assert forall|j: int| 0 <= j < digits.len() implies s[j] != 0 by {
        assert(s[j] == digits[j]);
        assert(is_octal_digit(digits[j]));
    }
    assert(nul_at(s, digits.len() as int));
    lemma_split_at_nul(s, digits.len() as int);
    assert(s.take(digits.len() as int) =~= digits);
    assert(s.skip(digits.len() as int + 1) =~= rest);
}

proof fn lemma_parse_stage_of(stage: Option<StageModel>, rest: Seq<u8>, hash_len: nat)
    requires
        stage matches Some(s) ==> s.mode != 0 && s.id.len() == hash_len,
    ensures
        parse_stage(stage_mode(stage), stage_id(stage) + rest, hash_len) == Some((stage, rest)),
{
    match stage {
        Some(s) => {
            assert((s.id + rest).take(hash_len as int) =~= s.id);
            assert((s.id + rest).skip(hash_len as int) =~= rest);
        },
        None => {
            assert(Seq::<u8>::empty() + rest =~= rest);
        },
    }
}

#[verifier::spinoff_prover]
proof fn lemma_parse_modes_of(m0: u32, m1: u32, m2: u32, rest: Seq<u8>)
    ensures
        parse_modes(
            octal(m0 as nat) + seq![0u8] + octal(m1 as nat) + seq![0u8] + octal(m2 as nat) + seq![0u8]
                + rest,
        ) == Some(((m0, m1, m2), rest)),
{
    let r2 = octal(m2 as nat) + seq![0u8] + rest;
    let r1 = octal(m1 as nat) + seq![0u8] + r2;
    let r0 = octal(m0 as nat) + seq![0u8] + r1;
    assert(octal(m0 as nat) + seq![0u8] + octal(m1 as nat) + seq![0u8] + octal(m2 as nat) + seq![0u8]
        + rest =~= r0);
    lemma_parse_mode_field_of_octal(m0, r1);
    lemma_parse_mode_field_of_octal(m1, r2);
    lemma_parse_mode_field_of_octal(m2, rest);
    assert(parse_mode_field(r0) == Some((m0, r1)));
    assert(parse_mode_field(r1) == Some((m1, r2)));
    assert(parse_mode_field(r2) == Some((m2, rest)));
    assert(parse_modes(r0) == Some(((m0, m1, m2), rest)));
}

#[verifier::spinoff_prover]
proof fn lemma_parse_stages_of(stages: Seq<Option<StageModel>>, rest: Seq<u8>, hash_len: nat)
    requires
        stages.len() == 3,
        forall|k: int|
            0 <= k < 3 ==> (#[trigger] stages[k] matches Some(s) ==> s.mode != 0 && s.id.len()
                == hash_len),
    ensures
        parse_stages(
            (stage_mode(stages[0]), stage_mode(stages[1]), stage_mode(stages[2])),
            stage_id(stages[0]) + stage_id(stages[1]) + stage_id(stages[2]) + rest,
            hash_len,
        ) == Some((stages, rest)),
{
    let (st0, st1, st2) = (stages[0], stages[1], stages[2]);
    let r2 = stage_id(st2) + rest;
    let r1 = stage_id(st1) + r2;
    assert(stage_id(st0) + stage_id(st1) + stage_id(st2) + rest =~= stage_id(st0) + r1);
    assert(stages[0] matches Some(s) ==> s.mode != 0 && s.id.len() == hash_len);
    assert(stages[1] matches Some(s) ==> s.mode != 0 && s.id.len() == hash_len);
    assert(stages[2] matches Some(s) ==> s.mode != 0 && s.id.len() == hash_len);
    lemma_parse_stage_of(st0, r1, hash_len);
    lemma_parse_stage_of(st1, r2, hash_len);
    lemma_parse_stage_of(st2, rest, hash_len);
    assert(stages =~= seq![st0, st1, st2]);
}

/// A record is parsed back into the path it was written from, and parsing continues
/// right after it.
#[verifier::spinoff_prover]
proof fn lemma_parse_record_of(path: ResolvePathModel, rest: Seq<u8>, hash_len: nat)
    requires
        roundtrips(path, hash_len),
    ensures
        parse_record(record_bytes(path) + rest, hash_len) == Some((path, rest)),
{
    let name = path.name;
    let stages = path.stages;
    let ids = stage_id(stages[0]) + stage_id(stages[1]) + stage_id(stages[2]) + rest;
    let (m0, m1, m2) = (stage_mode(stages[0]), stage_mode(stages[1]), stage_mode(stages[2]));
    let r0 = octal(m0 as nat) + seq![0u8] + octal(m1 as nat) + seq![0u8] + octal(m2 as nat) + seq![0u8]
        + ids;
    let s = name + seq![0u8] + r0;
    assert(record_bytes(path) + rest =~= s);
    assert(nul_at(s, name.len() as int));
    lemma_split_at_nul(s, name.len() as int);
    assert(s.take(name.len() as int) =~= name);
    assert(s.skip(name.len() as int + 1) =~= r0);
    lemma_parse_modes_of(m0, m1, m2, ids);
    lemma_parse_stages_of(stages, rest, hash_len);
}

/// What the extension writer produces decodes to the paths it was given, including
/// missing stages, for every path whose name holds no NUL byte and whose present
/// stages have a mode other than 0 and an id of the hash's length.
#[verifier::spinoff_prover]
pub proof fn lemma_write_then_decode(paths: Seq<ResolvePathModel>, object_hash: HashKind)
    requires
        forall|i: int| 0 <= i < paths.len() ==> roundtrips(#[trigger] paths[i], spec_len_in_bytes(object_hash)),
    ensures
        spec_decode(entries_bytes(paths), spec_len_in_bytes(object_hash)) == Some(paths),
    decreases paths.len(),
{
    let h = spec_len_in_bytes(object_hash);
    if paths.len() == 0 {
        assert(entries_bytes(paths) =~= Seq::<u8>::empty());
        assert(paths =~= Seq::<ResolvePathModel>::empty());
    } else {
        let rest = paths.drop_first();
        assert forall|i: int| 0 <= i < rest.len() implies roundtrips(#[trigger] rest[i], h) by {
            assert(rest[i] == paths[i + 1]);
        }
        lemma_write_then_decode(rest, object_hash);
        let tail = entries_bytes(rest);
        let s = entries_bytes(paths);
        assert(s == record_bytes(paths[0]) + tail);
        assert(roundtrips(paths[0], h));
        lemma_parse_record_of(paths[0], tail, h);
        lemma_octal_spelling(stage_mode(paths[0].stages[0]) as nat);
        assert(record_bytes(paths[0]).len() > 0);
        assert(s.len() != 0);
        assert(parse_record(s, h) == Some((paths[0], tail)));
        assert(spec_decode(tail, h) == Some(rest));
        assert(spec_decode(s, h) == Some(seq![paths[0]] + rest));
        assert(seq![paths[0]] + rest =~= paths);
    }
}

/// Every path that decoding yields has a name without NUL bytes, three stages, and
/// present stages with a mode other than 0 and an id of the hash's length.
#[verifier::spinoff_prover]
pub proof fn lemma_decoded_paths_roundtrip(data: Seq<u8>, hash_len: nat)
    ensures
        spec_decode(data, hash_len) matches Some(paths) ==> forall|i: int|
            0 <= i < paths.len() ==> roundtrips(#[trigger] paths[i], hash_len),
    decreases data.len(),
{
    if data.len() != 0 {
        if let Some((path, rest)) = parse_record(data, hash_len) {
            lemma_parse_record_consumes(data, hash_len);
            lemma_decoded_paths_roundtrip(rest, hash_len);
            lemma_parsed_record_roundtrips(data, hash_len);
            if let Some(paths) = spec_decode(data, hash_len) {
                assert forall|i: int| 0 <= i < paths.len() implies roundtrips(#[trigger] paths[i], hash_len) by {
                    if i > 0 {
                        assert(paths[i] == spec_decode(rest, hash_len).unwrap()[i - 1]);
                    }
                }
            }
        }
    }
}

proof fn lemma_split_name_has_no_nul(s: Seq<u8>)
    ensures
        split_at_nul(s) matches Some((name, _)) ==> forall|i: int| 0 <= i < name.len() ==> name[i] != 0,
{
    if exists|i: int| nul_at(s, i) {
        let i = choose|i: int| nul_at(s, i);
        lemma_split_at_nul(s, i);
    }
}

proof fn lemma_parsed_record_roundtrips(s: Seq<u8>, hash_len: nat)
    ensures
        parse_record(s, hash_len) matches Some((path, _)) ==> roundtrips(path, hash_len),
{
    lemma_split_name_has_no_nul(s);
    if let Some((path, _)) = parse_record(s, hash_len) {
        assert forall|k: int| 0 <= k < 3 implies (#[trigger] path.stages[k] matches Some(st) ==> st.mode != 0
            && st.id.len() == hash_len) by {}
    }
}

/// Decoding, writing and decoding again gives the same paths: resolve-undo records
/// that were read are preserved by writing them.
pub proof fn lemma_decode_then_write(data: Seq<u8>, object_hash: HashKind)
    ensures
        spec_decode(data, spec_len_in_bytes(object_hash)) matches Some(paths) ==> spec_decode(
            entries_bytes(paths),
            spec_len_in_bytes(object_hash),
        ) == Some(paths),
{
    lemma_decoded_paths_roundtrip(data, spec_len_in_bytes(object_hash));
    if let Some(paths) = spec_decode(data, spec_len_in_bytes(object_hash)) {
        lemma_write_then_decode(paths, object_hash);
    }
}

proof fn lemma_parsed_stage(mode: u32, s: Seq<u8>, hash_len: nat)
    ensures
        parse_stage(mode, s, hash_len) matches Some((stage, rest)) ==> {
            &&& (stage is Some <==> mode != 0)
            &&& stage_mode(stage) == mode
            &&& s == stage_id(stage) + rest
        },
{
    if let Some((stage, rest)) = parse_stage(mode, s, hash_len) {
        if mode == 0 {
            assert(s =~= Seq::<u8>::empty() + s);
        } else {
            assert(s =~= s.take(hash_len as int) + s.skip(hash_len as int));
        }
    }
}

/// A decoded record holds what its bytes say: its name is what comes before the first
/// NUL; each of its three stages is present exactly when the stage's mode field is not
/// 0, and has that mode; and the ids of the present stages follow the mode fields, in
/// stage order, up to the rest of the data.
#[verifier::spinoff_prover]
pub proof fn lemma_decoded_record_fields(s: Seq<u8>, hash_len: nat)
    ensures
        parse_record(s, hash_len) matches Some((path, rest)) ==> {
            &&& split_at_nul(s) matches Some((name, r0))
            &&& name == path.name
            &&& parse_modes(r0) matches Some((modes, r1))
            &&& path.stages.len() == 3
            &&& (path.stages[0] is Some <==> modes.0 != 0) && stage_mode(path.stages[0]) == modes.0
            &&& (path.stages[1] is Some <==> modes.1 != 0) && stage_mode(path.stages[1]) == modes.1
            &&& (path.stages[2] is Some <==> modes.2 != 0) && stage_mode(path.stages[2]) == modes.2
            &&& r1 == stage_id(path.stages[0]) + stage_id(path.stages[1]) + stage_id(path.stages[2])
                + rest
        },
{
    if let Some((path, rest)) = parse_record(s, hash_len) {
        let (name, r0) = split_at_nul(s).unwrap();
        let (modes, r1) = parse_modes(r0).unwrap();
        let (s0, r2) = parse_stage(modes.0, r1, hash_len).unwrap();
        let (s1, r3) = parse_stage(modes.1, r2, hash_len).unwrap();
        let (s2, r4) = parse_stage(modes.2, r3, hash_len).unwrap();
        lemma_parsed_stage(modes.0, r1, hash_len);
        lemma_parsed_stage(modes.1, r2, hash_len);
        lemma_parsed_stage(modes.2, r3, hash_len);
        assert(path.stages == seq![s0, s1, s2]);
        assert(rest == r4);
        assert(r1 =~= stage_id(s0) + stage_id(s1) + stage_id(s2) + rest);
    }
}

/// Decoding yields nothing exactly for empty data, and otherwise yields the record at
/// the start of the data followed by what decoding the rest yields.
pub proof fn lemma_decode_first_record(data: Seq<u8>, hash_len: nat)
    ensures
        spec_decode(data, hash_len) matches Some(paths) ==> {
            &&& paths.len() == 0 <==> data.len() == 0
            &&& paths.len() > 0 ==> (parse_record(data, hash_len) matches Some((first, rest)) && first
                == paths[0] && spec_decode(rest, hash_len) == Some(paths.drop_first()))
        },
{
    if let Some(paths) = spec_decode(data, hash_len) {
        if data.len() != 0 {
            let (first, rest) = parse_record(data, hash_len).unwrap();
            let tail = spec_decode(rest, hash_len).unwrap();
            assert(paths == seq![first] + tail);
            assert(paths.drop_first() =~= tail);
        }
    }
}

} // verus!
