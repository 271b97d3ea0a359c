use gix_index_ref::encoding::push_offset;
use gix_index_ref::entry::{Entry, Flags, Mode, Stat, State, Time, EXTENDED, INTENT_TO_ADD, SKIP_WORKTREE};
use gix_index_ref::hash::{HashKind, ObjectId};

fn stat() -> Stat {
    Stat {
        mtime: Time { secs: 0x0102_0304, nsecs: 5 },
        ctime: Time { secs: 6, nsecs: 0x0708_090a },
        dev: 11,
        ino: 12,
        uid: 13,
        gid: 14,
        size: 0xdead_beef,
    }
}

fn entry(flags: u32, path: std::ops::Range<usize>) -> Entry {
    Entry {
        stat: stat(),
        id: ObjectId::from_bytes_or_panic(&[0xab; 20]),
        flags: Flags { bits: flags },
        mode: Mode { bits: 0o100644 },
        path,
    }
}

fn header() -> Vec<u8> {
    let mut expected = Vec::new();
    for v in [6u32, 0x0708_090a, 0x0102_0304, 5, 11, 12, 0o100644, 13, 14, 0xdead_beef] {
        expected.extend_from_slice(&v.to_be_bytes());
    }
    expected.extend_from_slice(&[0xab; 20]);
    expected
}

#[test]
fn v2_entry_layout() {
    let state = State { path_backing: b"xxdir/file".to_vec() };
    let e = entry(0x3000, 2..10);
    let mut out = vec![0xff];
    e.write_to(&mut out, &state);
    let mut expected = vec![0xff];
    expected.extend(header());
    expected.extend_from_slice(&(0x3000u16 | 8).to_be_bytes());
    expected.extend_from_slice(b"dir/file\0");
    assert_eq!(out, expected);
}

#[test]
fn extended_flags_are_written_after_the_flags() {
    let state = State { path_backing: b"a".to_vec() };
    let e = entry(EXTENDED | SKIP_WORKTREE | INTENT_TO_ADD | 0x2_0000, 0..1);
    let mut out = Vec::new();
    e.write_to(&mut out, &state);
    let mut expected = header();
    expected.extend_from_slice(&(0x4000u16 | 1).to_be_bytes());
    expected.extend_from_slice(&0x6000u16.to_be_bytes());
    expected.extend_from_slice(b"a\0");
    assert_eq!(out, expected);
}

#[test]
fn long_paths_store_the_maximal_length() {
    let path = vec![b'p'; 5000];
    let state = State { path_backing: path.clone() };
    let e = entry(0, 0..5000);
    let mut out = Vec::new();
    e.write_to(&mut out, &state);
    assert_eq!(&out[60..62], &[0x0f, 0xff]);
    assert_eq!(&out[62..5062], path.as_slice());
    assert_eq!(out.len(), 62 + 5000 + 1);
}

#[test]
fn v4_paths_are_written_relative_to_the_previous_one() {
    let state = State { path_backing: b"abc/xyz".to_vec() };
    let e = entry(0, 0..7);
    let mut out = Vec::new();
    e.write_with_previous_path(&mut out, &state, Some(b"abc/def"));
    let mut expected = header();
    expected.extend_from_slice(&7u16.to_be_bytes());
    expected.push(3);
    expected.extend_from_slice(b"xyz\0");
    assert_eq!(out, expected);
}

#[test]
fn v4_path_equal_to_previous_strips_nothing() {
    let state = State { path_backing: b"same".to_vec() };
    let e = entry(0, 0..4);
    let mut out = Vec::new();
    e.write_with_previous_path(&mut out, &state, Some(b"same"));
    assert_eq!(&out[62..], &[0, 0]);
    let mut out = Vec::new();
    e.write_with_previous_path(&mut out, &state, Some(b""));
    assert_eq!(&out[62..], b"\0same\0");
}

fn offset(n: usize) -> Vec<u8> {
    let mut out = Vec::new();
    push_offset(&mut out, n, false);
    out
}

fn read_offset(bytes: &[u8]) -> usize {
    let mut value = (bytes[0] & 0x7f) as usize;
    for &b in &bytes[1..] {
        value = ((value + 1) << 7) | (b & 0x7f) as usize;
    }
    value
}

#[test]
fn offsets_use_the_git_variable_length_encoding() {
    assert_eq!(offset(0), vec![0]);
    assert_eq!(offset(127), vec![0x7f]);
    assert_eq!(offset(128), vec![0x80, 0x00]);
    assert_eq!(offset(16511), vec![0xff, 0x7f]);
    assert_eq!(offset(16512), vec![0x80, 0x80, 0x00]);
    assert_eq!(offset(usize::MAX).len(), 10);
    for n in [0usize, 1, 127, 128, 255, 4095, 4096, 16511, 16512, 1 << 40, usize::MAX] {
        let bytes = offset(n);
        assert_eq!(read_offset(&bytes), n);
        assert!(bytes[..bytes.len() - 1].iter().all(|b| b & 0x80 != 0));
        assert_eq!(bytes[bytes.len() - 1] & 0x80, 0);
    }
}

#[test]
fn v4_reader_restores_path_from_previous() {
    let previous = b"aaaaaaaaaaremoved".to_vec();
    let path = b"aaaaaaaaaaz".to_vec();
    let state = State { path_backing: path.clone() };
    let e = entry(0, 0..path.len());
    let mut out = Vec::new();
    e.write_with_previous_path(&mut out, &state, Some(&previous));
    let rest = &out[62..];
    let mut end = 0;
    while rest[end] & 0x80 != 0 {
        end += 1;
    }
    let strip = read_offset(&rest[..=end]);
    let suffix = &rest[end + 1..rest.len() - 1];
    let mut restored = previous[..previous.len() - strip].to_vec();
    restored.extend_from_slice(suffix);
    assert_eq!(restored, path);
}

#[test]
fn sha256_ids_are_written_whole() {
    let state = State { path_backing: b"f".to_vec() };
    let mut e = entry(0, 0..1);
    e.id = HashKind::Sha256.null();
    let mut out = Vec::new();
    e.write_to(&mut out, &state);
    assert_eq!(out.len(), 40 + 32 + 2 + 2);
    assert_eq!(e.path(&state), b"f");
    assert_eq!(HashKind::Sha1.len_in_bytes(), 20);
    assert_eq!(HashKind::Sha256.len_in_bytes(), 32);
}
