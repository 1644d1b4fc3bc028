use std::io::Write;

use tar_ingest::container::{parse_archive, ArchiveEntry, EntryKind};
use tar_ingest::driver::{
    continue_after, plan_entry, read_field, read_fields, run_field, Action, EntryStatus,
    FieldError,
};
use tar_ingest::paths::resolve_path;

/// Builds one 512-byte tar header block by hand, with a valid checksum.
fn header_block(name: &[u8], size: u64, tflag: u8) -> Vec<u8> {
    let mut b = vec![0u8; 512];
    b[..name.len()].copy_from_slice(name);
    let oct = format!("{:011o}", size);
    b[124..135].copy_from_slice(oct.as_bytes());
    b[135] = 0;
    b[156] = tflag;
    let mut sum: u64 = 0;
    for i in 0..512 {
        sum += if (148..156).contains(&i) { 32 } else { b[i] as u64 };
    }
    let cs = format!("{:06o}", sum);
    b[148..154].copy_from_slice(cs.as_bytes());
    b[154] = 0;
    b[155] = b' ';
    b
}

/// Assembles raw tar bytes from (name, type flag, payload) triples,
/// ending with two zero blocks.
fn tar_bytes(entries: &[(&[u8], u8, &[u8])]) -> Vec<u8> {
    let mut out = Vec::new();
    for (name, tflag, data) in entries {
        out.extend_from_slice(&header_block(name, data.len() as u64, *tflag));
        out.extend_from_slice(data);
        let pad = (512 - data.len() % 512) % 512;
        out.extend_from_slice(&vec![0u8; pad]);
    }
    out.extend_from_slice(&[0u8; 1024]);
    out
}

fn gzip(data: &[u8]) -> Vec<u8> {
    let mut enc = flate2::write::GzEncoder::new(Vec::new(), flate2::Compression::default());
    enc.write_all(data).unwrap();
    enc.finish().unwrap()
}

fn entry_summary(e: &ArchiveEntry) -> (Vec<u8>, u64, EntryKind, Vec<u8>) {
    (e.path.clone(), e.size, e.kind, e.data.clone())
}

#[test]
fn parses_archive_built_with_tar_crate() {
    let mut builder = tar::Builder::new(Vec::new());
    let mut h = tar::Header::new_ustar();
    h.set_size(0);
    h.set_entry_type(tar::EntryType::Directory);
    h.set_path("a/").unwrap();
    h.set_cksum();
    builder.append(&h, &[][..]).unwrap();
    let payload = b"ten bytes!";
    let mut h2 = tar::Header::new_ustar();
    h2.set_size(payload.len() as u64);
    h2.set_entry_type(tar::EntryType::Regular);
    h2.set_path("a/b.txt").unwrap();
    h2.set_cksum();
    builder.append(&h2, &payload[..]).unwrap();
    let raw = builder.into_inner().unwrap();

    let field = gzip(&raw);
    let r = read_field(&field);
    assert_eq!(r.error, None);
    assert_eq!(r.entries.len(), 2);
    assert_eq!(r.entries[0].path, b"a/".to_vec());
    assert_eq!(r.entries[0].kind, EntryKind::Directory);
    assert_eq!(r.entries[0].size, 0);
    assert_eq!(r.entries[1].path, b"a/b.txt".to_vec());
    assert_eq!(r.entries[1].kind, EntryKind::Regular);
    assert_eq!(r.entries[1].size, 10);
    assert_eq!(r.entries[1].data, payload.to_vec());
}

#[test]
fn parses_manual_blocks() {
    let raw = tar_bytes(&[(b"dir/", b'5', b""), (b"dir/file.bin", b'0', b"\x00\x01\x02three")]);
    let (entries, clean) = parse_archive(&raw);
    assert!(clean);
    assert_eq!(entries.len(), 2);
    assert_eq!(
        entry_summary(&entries[0]),
        (b"dir/".to_vec(), 0, EntryKind::Directory, Vec::new())
    );
    assert_eq!(
        entry_summary(&entries[1]),
        (b"dir/file.bin".to_vec(), 8, EntryKind::Regular, b"\x00\x01\x02three".to_vec())
    );
}

#[test]
fn symlink_entries_are_other() {
    let raw = tar_bytes(&[(b"link", b'2', b""), (b"fifo", b'6', b"")]);
    let (entries, clean) = parse_archive(&raw);
    assert!(clean);
    assert_eq!(entries.len(), 2);
    assert_eq!(entries[0].kind, EntryKind::Other);
    assert_eq!(entries[1].kind, EntryKind::Other);
}

#[test]
fn type_flag_nul_is_regular() {
    let raw = tar_bytes(&[(b"old-style", 0u8, b"v7")]);
    let (entries, clean) = parse_archive(&raw);
    assert!(clean);
    assert_eq!(entries[0].kind, EntryKind::Regular);
}

#[test]
fn empty_stream_parses_clean() {
    let (entries, clean) = parse_archive(&Vec::new());
    assert!(clean);
    assert_eq!(entries.len(), 0);
}

#[test]
fn bytes_after_end_marker_are_ignored() {
    let mut raw = tar_bytes(&[(b"f", b'0', b"x")]);
    raw.extend_from_slice(&[7u8; 100]);
    let (entries, clean) = parse_archive(&raw);
    assert!(clean);
    assert_eq!(entries.len(), 1);
}

#[test]
fn bad_checksum_aborts_keeping_prior_entries() {
    let mut raw = tar_bytes(&[(b"good", b'0', b"data"), (b"second", b'0', b"more")]);
    // corrupt the second header's checksum field
    raw[1024 + 148] = b'7';
    raw[1024 + 149] = b'7';
    let (entries, clean) = parse_archive(&raw);
    assert!(!clean);
    assert_eq!(entries.len(), 1);
    assert_eq!(entries[0].path, b"good".to_vec());
}

#[test]
fn truncated_payload_is_malformed() {
    let mut raw = Vec::new();
    raw.extend_from_slice(&header_block(b"big", 100, b'0'));
    raw.extend_from_slice(b"only a little");
    let (entries, clean) = parse_archive(&raw);
    assert!(!clean);
    assert_eq!(entries.len(), 0);
}

#[test]
fn truncated_header_is_malformed() {
    let raw = vec![1u8; 200];
    let (entries, clean) = parse_archive(&raw);
    assert!(!clean);
    assert_eq!(entries.len(), 0);
}

#[test]
fn exact_block_payload_needs_no_padding() {
    let body = vec![9u8; 512];
    let raw = tar_bytes(&[(b"block", b'0', &body), (b"after", b'0', b"tail")]);
    let (entries, clean) = parse_archive(&raw);
    assert!(clean);
    assert_eq!(entries.len(), 2);
    assert_eq!(entries[0].data, body);
    assert_eq!(entries[1].data, b"tail".to_vec());
}

#[test]
fn resolve_normalizes_dot_and_doubled_separators() {
    let r = resolve_path(&b"./x//y/".to_vec()).unwrap();
    assert_eq!(r, vec![b"x".to_vec(), b"y".to_vec()]);
}

#[test]
fn resolve_cancels_inner_parent_components() {
    let r = resolve_path(&b"a/../b".to_vec()).unwrap();
    assert_eq!(r, vec![b"b".to_vec()]);
}

#[test]
fn resolve_rejects_escapes() {
    assert!(resolve_path(&b"..".to_vec()).is_none());
    assert!(resolve_path(&b"../evil.txt".to_vec()).is_none());
    assert!(resolve_path(&b"a/../../evil".to_vec()).is_none());
    assert!(resolve_path(&b"/etc/passwd".to_vec()).is_none());
    assert!(resolve_path(&b"".to_vec()).is_none());
    assert!(resolve_path(&b"a/..".to_vec()).is_none());
    assert!(resolve_path(&b".".to_vec()).is_none());
}

#[test]
fn plan_dispatches_by_kind_and_path() {
    let dir = ArchiveEntry {
        path: b"a/".to_vec(),
        size: 0,
        kind: EntryKind::Directory,
        data: Vec::new(),
    };
    match plan_entry(dir) {
        Action::MakeDir { target } => assert_eq!(target, vec![b"a".to_vec()]),
        _ => panic!("directory entry must plan a directory creation"),
    }
    let evil = ArchiveEntry {
        path: b"../evil.txt".to_vec(),
        size: 5,
        kind: EntryKind::Regular,
        data: b"payld".to_vec(),
    };
    assert!(matches!(plan_entry(evil), Action::Reject));
    let link = ArchiveEntry {
        path: b"l".to_vec(),
        size: 0,
        kind: EntryKind::Other,
        data: Vec::new(),
    };
    assert!(matches!(plan_entry(link), Action::Skip));
    let file = ArchiveEntry {
        path: b"a/b.txt".to_vec(),
        size: 10,
        kind: EntryKind::Regular,
        data: b"ten bytes!".to_vec(),
    };
    match plan_entry(file) {
        Action::WriteFile { target, data } => {
            assert_eq!(target, vec![b"a".to_vec(), b"b.txt".to_vec()]);
            assert_eq!(data, b"ten bytes!".to_vec());
        },
        _ => panic!("regular entry with a safe path must plan a write"),
    }
}

#[test]
fn corrupt_gzip_reports_decompression_error() {
    let r = read_field(&b"this is not a gzip stream".to_vec());
    assert_eq!(r.error, Some(FieldError::DecompressionError));
    assert_eq!(r.entries.len(), 0);
}

#[test]
fn corrupt_field_leaves_later_fields_untouched() {
    let good = gzip(&tar_bytes(&[(b"ok.txt", b'0', b"fine")]));
    let fields = vec![b"garbage".to_vec(), good];
    let reads = read_fields(&fields);
    assert_eq!(reads.len(), 2);
    assert_eq!(reads[0].error, Some(FieldError::DecompressionError));
    assert_eq!(reads[0].entries.len(), 0);
    assert_eq!(reads[1].error, None);
    assert_eq!(reads[1].entries.len(), 1);
    assert_eq!(reads[1].entries[0].data, b"fine".to_vec());
}

#[test]
fn mid_stream_corruption_reports_container_error() {
    let mut raw = tar_bytes(&[(b"kept", b'0', b"prefix")]);
    // overwrite the end marker with a junk block
    let at = raw.len() - 1024;
    for i in 0..512 {
        raw[at + i] = 0xAA;
    }
    let r = read_field(&gzip(&raw));
    assert_eq!(r.error, Some(FieldError::ContainerParseError));
    assert_eq!(r.entries.len(), 1);
    assert_eq!(r.entries[0].path, b"kept".to_vec());
}

#[test]
fn dir_failure_aborts_rest_of_field() {
    let raw = tar_bytes(&[
        (b"d/", b'5', b""),
        (b"d/f.txt", b'0', b"abc"),
        (b"g.txt", b'0', b"xyz"),
    ]);
    let (entries, clean) = parse_archive(&raw);
    assert!(clean);
    let statuses = run_field(&entries, &vec![false, true, true]);
    assert_eq!(
        statuses,
        vec![EntryStatus::Failed, EntryStatus::NotAttempted, EntryStatus::NotAttempted]
    );
}

#[test]
fn file_failure_does_not_stop_next_entry() {
    let raw = tar_bytes(&[
        (b"one.txt", b'0', b"1"),
        (b"two.txt", b'0', b"2"),
        (b"three.txt", b'0', b"3"),
    ]);
    let (entries, clean) = parse_archive(&raw);
    assert!(clean);
    let statuses = run_field(&entries, &vec![true, false, true]);
    assert_eq!(statuses, vec![EntryStatus::Done, EntryStatus::Failed, EntryStatus::Done]);
}

#[test]
fn continue_after_matches_policy() {
    let mk = Action::MakeDir { target: vec![b"a".to_vec()] };
    assert!(!continue_after(&mk, false));
    assert!(continue_after(&mk, true));
    let wr = Action::WriteFile { target: vec![b"a".to_vec()], data: Vec::new() };
    assert!(continue_after(&wr, false));
    assert!(continue_after(&Action::Reject, false));
    assert!(continue_after(&Action::Skip, false));
}

#[test]
fn traversal_entry_is_rejected_but_siblings_extract() {
    let raw = tar_bytes(&[
        (b"a/", b'5', b""),
        (b"a/b.txt", b'0', b"0123456789"),
        (b"../evil.txt", b'0', b"evil!"),
    ]);
    let r = read_field(&gzip(&raw));
    assert_eq!(r.error, None);
    assert_eq!(r.entries.len(), 3);
    let statuses = run_field(&r.entries, &vec![true, true, true]);
    assert_eq!(statuses, vec![EntryStatus::Done, EntryStatus::Done, EntryStatus::Failed]);
    let planned: Vec<Action> = r.entries.into_iter().map(plan_entry).collect();
    match &planned[0] {
        Action::MakeDir { target } => assert_eq!(*target, vec![b"a".to_vec()]),
        _ => panic!("a/ must plan a directory creation"),
    }
    match &planned[1] {
        Action::WriteFile { target, data } => {
            assert_eq!(*target, vec![b"a".to_vec(), b"b.txt".to_vec()]);
            assert_eq!(*data, b"0123456789".to_vec());
        },
        _ => panic!("a/b.txt must plan a write of its ten bytes"),
    }
    assert!(matches!(planned[2], Action::Reject));
}

#[test]
fn long_path_in_ustar_prefix_is_joined() {
    let dir = "d".repeat(120);
    let long_path = format!("{}/leaf.txt", dir);
    let payload = b"deep";
    let mut builder = tar::Builder::new(Vec::new());
    let mut h = tar::Header::new_ustar();
    h.set_size(payload.len() as u64);
    h.set_entry_type(tar::EntryType::Regular);
    h.set_path(&long_path).unwrap();
    h.set_cksum();
    builder.append(&h, &payload[..]).unwrap();
    let raw = builder.into_inner().unwrap();

    let (entries, clean) = parse_archive(&raw);
    assert!(clean);
    assert_eq!(entries.len(), 1);
    assert_eq!(entries[0].path, long_path.as_bytes().to_vec());
    assert_eq!(entries[0].data, payload.to_vec());
    let r = resolve_path(&entries[0].path).unwrap();
    assert_eq!(r, vec![dir.as_bytes().to_vec(), b"leaf.txt".to_vec()]);
}

#[test]
fn duplicate_paths_both_parse_in_order() {
    let raw = tar_bytes(&[(b"same.txt", b'0', b"first"), (b"same.txt", b'0', b"second")]);
    let (entries, clean) = parse_archive(&raw);
    assert!(clean);
    assert_eq!(entries.len(), 2);
    assert_eq!(entries[0].data, b"first".to_vec());
    assert_eq!(entries[1].data, b"second".to_vec());
    let statuses = run_field(&entries, &vec![true, true]);
    assert_eq!(statuses, vec![EntryStatus::Done, EntryStatus::Done]);
}

#[test]
fn size_field_with_leading_spaces_parses() {
    let mut b = header_block(b"s.txt", 0, b'0');
    // rewrite the size field as space-padded octal, then fix the checksum
    let field = b"       5 \0\0\0";
    b[124..136].copy_from_slice(field);
    let mut sum: u64 = 0;
    for i in 0..512 {
        sum += if (148..156).contains(&i) { 32 } else { b[i] as u64 };
    }
    let cs = format!("{:06o}", sum);
    b[148..154].copy_from_slice(cs.as_bytes());
    let mut raw = b;
    raw.extend_from_slice(b"hello");
    raw.extend_from_slice(&vec![0u8; 507]);
    raw.extend_from_slice(&[0u8; 1024]);
    let (entries, clean) = parse_archive(&raw);
    assert!(clean);
    assert_eq!(entries.len(), 1);
    assert_eq!(entries[0].size, 5);
    assert_eq!(entries[0].data, b"hello".to_vec());
}

#[test]
fn junk_in_size_field_is_malformed() {
    let mut b = header_block(b"s.txt", 0, b'0');
    let field = b"0000000q000\0";
    b[124..136].copy_from_slice(field);
    let mut sum: u64 = 0;
    for i in 0..512 {
        sum += if (148..156).contains(&i) { 32 } else { b[i] as u64 };
    }
    let cs = format!("{:06o}", sum);
    b[148..154].copy_from_slice(cs.as_bytes());
    let mut raw = b;
    raw.extend_from_slice(&[0u8; 1024]);
    let (entries, clean) = parse_archive(&raw);
    assert!(!clean);
    assert_eq!(entries.len(), 0);
}
