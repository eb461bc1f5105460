use std::collections::HashMap;

use tar_core::archive::Archive;
use tar_core::entry::Seg;
use tar_core::error::Error;
use tar_core::extract::{apply_mask, sanitize_path, OpKind, SanitizedPath, WriteOp};

fn octal_field(v: u64, width: usize) -> Vec<u8> {
    let digits = width - 1;
    let mut out = vec![0u8; width];
    let mut x = v;
    for i in (0..digits).rev() {
        out[i] = b'0' + (x % 8) as u8;
        x /= 8;
    }
    out[digits] = 0;
    out
}

fn set(block: &mut [u8], off: usize, bytes: &[u8]) {
    block[off..off + bytes.len()].copy_from_slice(bytes);
}

fn finish_checksum(block: &mut [u8]) {
    for i in 148..156 {
        block[i] = b' ';
    }
    let sum: u32 = block.iter().map(|b| *b as u32).sum();
    let mut ck = octal_field(sum as u64, 7);
    ck.push(b' ');
    set(block, 148, &ck);
}

fn header_mode(name: &[u8], size: u64, typeflag: u8, mode: u64) -> Vec<u8> {
    let mut block = vec![0u8; 512];
    set(&mut block, 0, name);
    set(&mut block, 100, &octal_field(mode, 8));
    set(&mut block, 108, &octal_field(0, 8));
    set(&mut block, 116, &octal_field(0, 8));
    set(&mut block, 124, &octal_field(size, 12));
    set(&mut block, 136, &octal_field(0, 12));
    block[156] = typeflag;
    set(&mut block, 257, b"ustar\x00");
    set(&mut block, 263, b"00");
    finish_checksum(&mut block);
    block
}

fn entry_mode(name: &[u8], data: &[u8], typeflag: u8, mode: u64) -> Vec<u8> {
    let mut out = header_mode(name, data.len() as u64, typeflag, mode);
    out.extend_from_slice(data);
    while out.len() % 512 != 0 {
        out.push(0);
    }
    out
}

fn entry(name: &[u8], data: &[u8], typeflag: u8) -> Vec<u8> {
    entry_mode(name, data, typeflag, 0o644)
}

fn terminate(mut bytes: Vec<u8>) -> Vec<u8> {
    bytes.extend_from_slice(&[0u8; 1024]);
    bytes
}

fn parts(op: &WriteOp) -> Vec<Vec<u8>> {
    op.path.clone()
}

#[test]
fn sanitize_keeps_plain_relative_paths() {
    match sanitize_path(&b"a/b/c".to_vec()) {
        SanitizedPath::Clean(cs) => {
            assert_eq!(cs, vec![b"a".to_vec(), b"b".to_vec(), b"c".to_vec()]);
        }
        _ => panic!("expected a clean path"),
    }
}

#[test]
fn sanitize_strips_absolute_roots_and_drive_letters() {
    for raw in [&b"/tmp/evil"[..], &b"///tmp/evil"[..], &b"/./tmp/evil"[..], &b"C://tmp/evil"[..]] {
        match sanitize_path(&raw.to_vec()) {
            SanitizedPath::Clean(cs) => {
                assert_eq!(cs, vec![b"tmp".to_vec(), b"evil".to_vec()], "{:?}", raw);
            }
            _ => panic!("expected a clean path for {:?}", raw),
        }
    }
}

#[test]
fn sanitize_rejects_parent_components() {
    for raw in [&b"../rel"[..], &b"foo/../../bar"[..], &b"/../x"[..], &b"./../y"[..]] {
        assert!(
            matches!(sanitize_path(&raw.to_vec()), SanitizedPath::Reject),
            "{:?}",
            raw
        );
    }
}

#[test]
fn sanitize_rejects_empty_results_and_flags_nul() {
    assert!(matches!(sanitize_path(&b"/////////".to_vec()), SanitizedPath::Reject));
    assert!(matches!(sanitize_path(&b"././//./".to_vec()), SanitizedPath::Reject));
    assert!(matches!(sanitize_path(&b"foo\0bar".to_vec()), SanitizedPath::NulByte));
}

#[test]
fn sanitize_keeps_backslashes_as_plain_bytes() {
    match sanitize_path(&b"foo\\bar".to_vec()) {
        SanitizedPath::Clean(cs) => assert_eq!(cs, vec![b"foo\\bar".to_vec()]),
        _ => panic!("expected a clean path"),
    }
}

#[test]
fn malicious_archive_extracts_only_inside_destination() {
    let mut bytes = entry(b"/tmp/evil", b"absolute", b'0');
    bytes.extend_from_slice(&entry(b"../rel", b"parent", b'0'));
    bytes.extend_from_slice(&entry(b"foo/../../bar", b"sneaky", b'0'));
    let ar = Archive::new(terminate(bytes));
    let ops = ar.unpack().unwrap();
    assert_eq!(ops.len(), 1);
    assert_eq!(parts(&ops[0]), vec![b"tmp".to_vec(), b"evil".to_vec()]);
    for op in &ops {
        for c in &op.path {
            assert!(!c.is_empty());
            assert_ne!(c, &b"..".to_vec());
            assert!(!c.contains(&b'/'));
            assert!(!c.contains(&0));
        }
    }
}

#[test]
fn path_with_nul_fails_extraction() {
    // a NUL inside the header name field would just truncate the name;
    // only a long-name payload can smuggle one into the path
    let mut bytes = entry(b"././@LongLink", b"foo\0bar", b'L');
    bytes.extend_from_slice(&entry(b"x", b"", b'0'));
    let ar = Archive::new(terminate(bytes));
    assert!(matches!(ar.unpack(), Err(Error::PathHasNul)));
}

#[test]
fn mask_is_applied_to_modes() {
    assert_eq!(apply_mask(0o777, 0o211), 0o566);
    assert_eq!(apply_mask(0o421, 0o211), 0o420);
}

#[test]
fn mask_flows_into_the_plan() {
    let mut bytes = entry_mode(b"a", b"", b'0', 0o777);
    bytes.extend_from_slice(&entry_mode(b"b", b"", b'0', 0o421));
    let mut ar = Archive::new(terminate(bytes));
    ar.set_mask(0o211);
    let ops = ar.unpack().unwrap();
    assert_eq!(ops.len(), 2);
    assert_eq!(ops[0].mode, 0o566);
    assert_eq!(ops[1].mode, 0o420);
}

#[test]
fn directories_are_deferred_to_the_end() {
    let mut bytes = entry(b"d", b"", b'5');
    bytes.extend_from_slice(&entry(b"d/f", b"data", b'0'));
    bytes.extend_from_slice(&entry(b"e", b"", b'5'));
    let ar = Archive::new(terminate(bytes));
    let ops = ar.unpack().unwrap();
    assert_eq!(ops.len(), 3);
    assert!(matches!(ops[0].kind, OpKind::File(_)));
    assert_eq!(parts(&ops[0]), vec![b"d".to_vec(), b"f".to_vec()]);
    assert!(matches!(ops[1].kind, OpKind::Dir));
    assert_eq!(parts(&ops[1]), vec![b"d".to_vec()]);
    assert!(matches!(ops[2].kind, OpKind::Dir));
    assert_eq!(parts(&ops[2]), vec![b"e".to_vec()]);
}

fn link_entry(name: &[u8], target: &[u8], typeflag: u8) -> Vec<u8> {
    let mut block = header_mode(name, 0, typeflag, 0o644);
    set(&mut block, 157, target);
    finish_checksum(&mut block);
    block
}

#[test]
fn links_carry_their_targets() {
    let mut bytes = link_entry(b"lnk", b"file", b'2');
    bytes.extend_from_slice(&link_entry(b"hard", b"file", b'1'));
    let ar = Archive::new(terminate(bytes));
    let ops = ar.unpack().unwrap();
    assert_eq!(ops.len(), 2);
    match &ops[0].kind {
        OpKind::Symlink(t) => assert_eq!(t, &b"file".to_vec()),
        _ => panic!("expected a symlink"),
    }
    match &ops[1].kind {
        OpKind::Hardlink(t) => assert_eq!(t, &b"file".to_vec()),
        _ => panic!("expected a hardlink"),
    }
}

#[test]
fn extraction_plan_is_idempotent_on_a_tree_model() {
    let mut bytes = entry(b"x", b"one", b'0');
    bytes.extend_from_slice(&entry(b"d", b"", b'5'));
    bytes.extend_from_slice(&entry(b"x", b"two", b'0'));
    let ar = Archive::new(terminate(bytes));
    let ops = ar.unpack().unwrap();

    let mut tree: HashMap<Vec<Vec<u8>>, usize> = HashMap::new();
    for (i, op) in ops.iter().enumerate() {
        tree.insert(op.path.clone(), i);
    }
    let once = tree.clone();
    for (i, op) in ops.iter().enumerate() {
        tree.insert(op.path.clone(), i);
    }
    assert_eq!(tree, once);
    // the duplicate "x" resolves to its last write
    let seg_pos = |op: &WriteOp| match &op.kind {
        OpKind::File(segs) => match segs[0] {
            Seg::Stored { pos, .. } => pos,
            _ => panic!("expected stored bytes"),
        },
        _ => panic!("expected a file"),
    };
    let idx = once[&vec![b"x".to_vec()]];
    let e = &ops[idx];
    let body_pos = seg_pos(e);
    assert_eq!(&ar.data[body_pos as usize..body_pos as usize + 3], b"two");
}

#[test]
fn metadata_only_entries_create_nothing() {
    let mut bytes = entry(b"g", b"11 mtime=17\n", b'g');
    bytes.extend_from_slice(&entry(b"f", b"hi", b'0'));
    let ar = Archive::new(terminate(bytes));
    let ops = ar.unpack().unwrap();
    assert_eq!(ops.len(), 1);
    assert_eq!(parts(&ops[0]), vec![b"f".to_vec()]);
}

#[test]
fn empty_file_name_is_skipped() {
    let mut bytes = entry(b"", b"", b'0');
    bytes.extend_from_slice(&entry(b"kept", b"", b'0'));
    let ar = Archive::new(terminate(bytes));
    let ops = ar.unpack().unwrap();
    assert_eq!(ops.len(), 1);
    assert_eq!(parts(&ops[0]), vec![b"kept".to_vec()]);
}

#[test]
fn unpack_reports_iteration_errors() {
    let mut bytes = entry(b"ok", b"", b'0');
    let mut bad = entry(b"bad", b"", b'0');
    bad[0] ^= 1;
    bytes.extend_from_slice(&bad);
    let ar = Archive::new(terminate(bytes));
    assert!(matches!(ar.unpack(), Err(Error::ChecksumMismatch)));
}
