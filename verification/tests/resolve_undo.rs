use gix_index_ref::hash::{HashKind, ObjectId};
use gix_index_ref::resolve_undo::{decode, write_to, ResolvePath, Stage, SIGNATURE};
use proptest::arbitrary::any;
use proptest::test_runner::TestCaseError;
use proptest::test_runner::TestRunner;

fn stage(mode: u32, byte: u8, kind: HashKind) -> Option<Stage> {
    Some(Stage { mode, id: ObjectId::from_bytes_or_panic(&vec![byte; kind.len_in_bytes()]) })
}

fn describe(paths: &[ResolvePath]) -> Vec<(Vec<u8>, Vec<Option<(u32, Vec<u8>)>>)> {
    paths
        .iter()
        .map(|p| {
            (
                p.name.clone(),
                p.stages.iter().map(|s| s.as_ref().map(|s| (s.mode, s.id.as_bytes().to_vec()))).collect(),
            )
        })
        .collect()
}

fn data_of(paths: &[ResolvePath]) -> Vec<u8> {
    let mut out = Vec::new();
    write_to(paths, &mut out).expect("small enough");
    assert_eq!(&out[..4], b"REUC");
    let size = u32::from_be_bytes([out[4], out[5], out[6], out[7]]) as usize;
    assert_eq!(size, out.len() - 8);
    out[8..].to_vec()
}

#[test]
fn writes_the_documented_layout() {
    let kind = HashKind::Sha1;
    let paths = vec![ResolvePath {
        name: b"a/b".to_vec(),
        stages: [stage(0o100644, 1, kind), None, stage(0o120000, 2, kind)],
    }];
    let mut out = vec![9];
    write_to(&paths, &mut out).unwrap();
    let mut entries = b"a/b\0100644\00\0120000\0".to_vec();
    entries.extend_from_slice(&[1; 20]);
    entries.extend_from_slice(&[2; 20]);
    let mut expected = vec![9];
    expected.extend_from_slice(b"REUC");
    expected.extend_from_slice(&(entries.len() as u32).to_be_bytes());
    expected.extend_from_slice(&entries);
    assert_eq!(out, expected);
}

#[test]
fn empty_extension_has_only_a_header() {
    let mut out = Vec::new();
    write_to(&[], &mut out).unwrap();
    assert_eq!(out, b"REUC\0\0\0\0".to_vec());
    assert_eq!(describe(&decode(&[], HashKind::Sha1).unwrap()), vec![]);
}

#[test]
fn decodes_what_was_written_including_missing_stages() {
    for kind in [HashKind::Sha1, HashKind::Sha256] {
        let paths = vec![
            ResolvePath { name: b"one".to_vec(), stages: [None, None, None] },
            ResolvePath {
                name: b"nested/space tab\tline\n\xff".to_vec(),
                stages: [stage(u32::MAX, 0, kind), stage(0o160000, 255, kind), None],
            },
            ResolvePath { name: Vec::new(), stages: [None, stage(1, 7, kind), None] },
        ];
        let decoded = decode(&data_of(&paths), kind).expect("valid");
        assert_eq!(describe(&decoded), describe(&paths));
    }
}

#[test]
fn malformed_data_is_rejected() {
    let kind = HashKind::Sha1;
    assert!(decode(b"name", kind).is_none(), "no NUL after the name");
    assert!(decode(b"name\0100644\0", kind).is_none(), "too few modes");
    assert!(decode(b"name\08\00\00\0", kind).is_none(), "not an octal digit");
    assert!(decode(b"name\0\00\00\0", kind).is_none(), "empty mode");
    assert!(decode(b"name\0+\00\00\0", kind).is_none(), "sign without digits");
    assert!(decode(b"name\0-1\00\00\0", kind).is_none(), "negative mode");
    assert!(decode(b"name\040000000000\00\00\0", kind).is_none(), "mode beyond 32 bits");
    assert!(decode(b"name\0 1\00\00\0", kind).is_none(), "leading space");
    let mut short = b"name\0644\00\00\0".to_vec();
    short.extend_from_slice(&[1; 19]);
    assert!(decode(&short, kind).is_none(), "truncated id");
}

#[test]
fn modes_may_carry_a_plus_sign_and_leading_zeros() {
    let kind = HashKind::Sha1;
    let mut data = b"n\0+17\0000\0037777777777\0".to_vec();
    data.extend_from_slice(&[3; 20]);
    data.extend_from_slice(&[4; 20]);
    let decoded = decode(&data, kind).expect("valid");
    assert_eq!(
        describe(&decoded),
        vec![(b"n".to_vec(), vec![Some((0o17, vec![3; 20])), None, Some((u32::MAX, vec![4; 20]))])]
    );
}

#[test]
fn the_size_field_counts_the_data_after_the_header() {
    assert_eq!(&SIGNATURE, b"REUC");
    let mut out = vec![1, 2];
    let paths = vec![ResolvePath { name: vec![b'x'; 4096], stages: [None, None, None] }];
    assert!(write_to(&paths, &mut out).is_ok());
    assert_eq!(out.len(), 2 + 8 + 4096 + 1 + 6);
    assert_eq!(&out[2..6], b"REUC");
    assert_eq!(u32::from_be_bytes([out[6], out[7], out[8], out[9]]), 4096 + 1 + 6);
}

#[test]
fn paths_can_be_cloned() {
    let kind = HashKind::Sha256;
    let path = ResolvePath { name: b"p".to_vec(), stages: [stage(0o100755, 5, kind), None, None] };
    let copy = path.clone();
    assert_eq!(describe(&[copy]), describe(&[path]));
}

#[test]
fn resolve_undo_roundtrips_for_arbitrary_paths() {
    let mut runner = TestRunner::default();
    let kinds = proptest::sample::select(vec![HashKind::Sha1, HashKind::Sha256]);
    let strategy = (
        kinds,
        proptest::collection::vec(
            (
                proptest::collection::vec(1u8..=255, 0..40),
                proptest::collection::vec((any::<bool>(), 1u32..=u32::MAX, any::<u8>()), 3),
            ),
            0..8,
        ),
    );
    runner
        .run(&strategy, |(kind, raw)| {
            let paths: Vec<ResolvePath> = raw
                .into_iter()
                .map(|(name, stages)| {
                    let s = |i: usize| {
                        let (present, mode, byte) = stages[i];
                        if present { stage(mode, byte, kind) } else { None }
                    };
                    ResolvePath { name, stages: [s(0), s(1), s(2)] }
                })
                .collect();
            let decoded = decode(&data_of(&paths), kind).expect("valid");
            if describe(&decoded) == describe(&paths) {
                Ok(())
            } else {
                Err(TestCaseError::fail("decoded paths differ from the written ones"))
            }
        })
        .unwrap();
}
