use tar_core::archive::Archive;
use tar_core::entry::Entry;
use tar_core::error::Error;
#[allow(unused_imports)]
use tar_core::header::{EntryType, HeaderVariant};

fn octal_field(v: u64, width: usize) -> Vec<u8> {
    // width-1 octal digits, NUL terminated
    let digits = width - 1;
    let mut out = vec![0u8; width];
    let mut x = v;
    for i in (0..digits).rev() {
        out[i] = b'0' + (x % 8) as u8;
        x /= 8;
    }
    out[digits] = 0;
    out
}

fn set(block: &mut [u8], off: usize, bytes: &[u8]) {
    block[off..off + bytes.len()].copy_from_slice(bytes);
}

fn finish_checksum(block: &mut [u8]) {
    for i in 148..156 {
        block[i] = b' ';
    }
    let sum: u32 = block.iter().map(|b| *b as u32).sum();
    let mut ck = octal_field(sum as u64, 7);
    ck.push(b' ');
    set(block, 148, &ck);
}

fn header(name: &[u8], size: u64, typeflag: u8, gnu: bool) -> Vec<u8> {
    let mut block = vec![0u8; 512];
    set(&mut block, 0, name);
    set(&mut block, 100, &octal_field(0o644, 8));
    set(&mut block, 108, &octal_field(0, 8));
    set(&mut block, 116, &octal_field(0, 8));
    set(&mut block, 124, &octal_field(size, 12));
    set(&mut block, 136, &octal_field(0, 12));
    block[156] = typeflag;
    if gnu {
        set(&mut block, 257, b"ustar ");
        set(&mut block, 263, b" \x00");
    } else {
        set(&mut block, 257, b"ustar\x00");
        set(&mut block, 263, b"00");
    }
    finish_checksum(&mut block);
    block
}

fn entry(name: &[u8], data: &[u8], typeflag: u8) -> Vec<u8> {
    let mut out = header(name, data.len() as u64, typeflag, false);
    out.extend_from_slice(data);
    while out.len() % 512 != 0 {
        out.push(0);
    }
    out
}

fn terminate(mut bytes: Vec<u8>) -> Vec<u8> {
    bytes.extend_from_slice(&[0u8; 1024]);
    bytes
}

fn simple_archive() -> Vec<u8> {
    let a_body = b"a\n".repeat(11);
    let b_body = b"b\n".repeat(11);
    let mut bytes = entry(b"a", &a_body, b'0');
    bytes.extend_from_slice(&entry(b"b", &b_body, b'0'));
    terminate(bytes)
}

fn list_entries(ar: &Archive) -> Vec<Entry> {
    let mut it = ar.entries().unwrap();
    let mut out = Vec::new();
    while let Some(e) = it.next_entry().unwrap() {
        out.push(e);
    }
    out
}

#[test]
fn simple_two_entry_listing() {
    let ar = Archive::new(simple_archive());
    let entries = list_entries(&ar);
    assert_eq!(entries.len(), 2);
    assert_eq!(entries[0].path_bytes(), b"a".to_vec());
    assert_eq!(entries[0].size, 22);
    assert_eq!(entries[1].path_bytes(), b"b".to_vec());
    assert_eq!(entries[1].size, 22);
    assert_eq!(entries[0].body(&ar.data), b"a\n".repeat(11));
    assert_eq!(entries[1].body(&ar.data), b"b\n".repeat(11));
}

#[test]
fn concat_without_ignore_zeros_sees_first_archive() {
    let mut bytes = simple_archive();
    bytes.extend_from_slice(&simple_archive());
    let ar = Archive::new(bytes);
    let entries = list_entries(&ar);
    let names: Vec<Vec<u8>> = entries.iter().map(|e| e.path_bytes()).collect();
    assert_eq!(names, vec![b"a".to_vec(), b"b".to_vec()]);
}

#[test]
fn concat_with_ignore_zeros_sees_both_archives() {
    let mut bytes = simple_archive();
    bytes.extend_from_slice(&simple_archive());
    let mut ar = Archive::new(bytes);
    ar.set_ignore_zeros(true);
    let entries = list_entries(&ar);
    let names: Vec<Vec<u8>> = entries.iter().map(|e| e.path_bytes()).collect();
    assert_eq!(
        names,
        vec![b"a".to_vec(), b"b".to_vec(), b"a".to_vec(), b"b".to_vec()]
    );
}

#[test]
fn gnu_long_name_overrides_header_name() {
    let long_name = b"abcd".repeat(200);
    let mut payload = long_name.clone();
    payload.push(0);
    let mut bytes = entry(b"././@LongLink", &payload, b'L');
    bytes.extend_from_slice(&entry(b"short", b"x", b'0'));
    let ar = Archive::new(terminate(bytes));
    let entries = list_entries(&ar);
    assert_eq!(entries.len(), 1);
    let path = entries[0].path_bytes();
    assert_eq!(path.len(), 800);
    assert_eq!(path, long_name);
}

#[test]
fn long_name_trailing_nul_is_stripped_once() {
    let mut bytes = entry(b"././@LongLink", b"foo\0", b'L');
    bytes.extend_from_slice(&entry(b"bar", b"", b'0'));
    let ar = Archive::new(terminate(bytes));
    let entries = list_entries(&ar);
    assert_eq!(entries[0].path_bytes(), b"foo".to_vec());
}

#[test]
fn gnu_long_link_overrides_header_link() {
    let mut bytes = entry(b"././@LongLink", b"target/far/away\0", b'K');
    bytes.extend_from_slice(&entry(b"lnk", b"", b'2'));
    let ar = Archive::new(terminate(bytes));
    let entries = list_entries(&ar);
    assert_eq!(entries[0].link_name_bytes(), b"target/far/away".to_vec());
}

#[test]
fn duplicate_long_name_is_an_error() {
    let mut bytes = entry(b"././@LongLink", b"one\0", b'L');
    bytes.extend_from_slice(&entry(b"././@LongLink", b"two\0", b'L'));
    bytes.extend_from_slice(&entry(b"real", b"", b'0'));
    let ar = Archive::new(terminate(bytes));
    let mut it = ar.entries().unwrap();
    assert!(matches!(it.next_entry(), Err(Error::DuplicateLongName)));
    assert!(it.is_terminated());
}

#[test]
fn duplicate_long_link_is_an_error() {
    let mut bytes = entry(b"././@LongLink", b"one\0", b'K');
    bytes.extend_from_slice(&entry(b"././@LongLink", b"two\0", b'K'));
    bytes.extend_from_slice(&entry(b"real", b"", b'0'));
    let ar = Archive::new(terminate(bytes));
    let mut it = ar.entries().unwrap();
    assert!(matches!(it.next_entry(), Err(Error::DuplicateLongLink)));
}

#[test]
fn duplicate_pax_records_are_an_error() {
    let mut bytes = entry(b"pax", b"13 path=beta\n", b'x');
    bytes.extend_from_slice(&entry(b"pax", b"13 path=beta\n", b'x'));
    bytes.extend_from_slice(&entry(b"real", b"", b'0'));
    let ar = Archive::new(terminate(bytes));
    let mut it = ar.entries().unwrap();
    assert!(matches!(it.next_entry(), Err(Error::DuplicatePaxExtensions)));
}

#[test]
fn dangling_auxiliary_is_an_error() {
    let bytes = entry(b"././@LongLink", b"name\0", b'L');
    let ar = Archive::new(terminate(bytes));
    let mut it = ar.entries().unwrap();
    assert!(matches!(it.next_entry(), Err(Error::DanglingAuxiliary)));
}

#[test]
fn pax_path_overrides_header_name() {
    let mut bytes = entry(b"pax", b"13 path=beta\n", b'x');
    bytes.extend_from_slice(&entry(b"alpha", b"hi", b'0'));
    let ar = Archive::new(terminate(bytes));
    let entries = list_entries(&ar);
    assert_eq!(entries.len(), 1);
    assert_eq!(entries[0].path_bytes(), b"beta".to_vec());
}

#[test]
fn pax_last_record_wins() {
    let mut bytes = entry(b"pax", b"13 path=beta\n14 path=gamma\n", b'x');
    bytes.extend_from_slice(&entry(b"alpha", b"", b'0'));
    let ar = Archive::new(terminate(bytes));
    let entries = list_entries(&ar);
    assert_eq!(entries[0].path_bytes(), b"gamma".to_vec());
}

#[test]
fn pax_linkpath_overrides_header_link() {
    let mut bytes = entry(b"pax", b"18 linkpath=tgt/x\n", b'x');
    bytes.extend_from_slice(&entry(b"lnk", b"", b'2'));
    let ar = Archive::new(terminate(bytes));
    let entries = list_entries(&ar);
    assert_eq!(entries[0].link_name_bytes(), b"tgt/x".to_vec());
}

#[test]
fn pax_size_applies_when_header_size_is_zero() {
    let mut bytes = entry(b"pax", b"12 size=512\n", b'x');
    let mut real = header(b"big", 0, b'0', false);
    real.extend_from_slice(&[b'z'; 512]);
    bytes.extend_from_slice(&real);
    bytes.extend_from_slice(&entry(b"after", b"ok", b'0'));
    let ar = Archive::new(terminate(bytes));
    let entries = list_entries(&ar);
    assert_eq!(entries.len(), 2);
    assert_eq!(entries[0].size, 512);
    assert_eq!(entries[0].body(&ar.data), vec![b'z'; 512]);
    assert_eq!(entries[1].path_bytes(), b"after".to_vec());
}

#[test]
fn pax_uid_gid_override_header_fields() {
    let mut bytes = entry(b"pax", b"18 uid=4294967294\n11 gid=777\n", b'x');
    bytes.extend_from_slice(&entry(b"f", b"", b'0'));
    let ar = Archive::new(terminate(bytes));
    let entries = list_entries(&ar);
    assert_eq!(entries[0].uid(), Some(4294967294));
    assert_eq!(entries[0].gid(), Some(777));
}

#[test]
fn base256_size_field_is_accepted() {
    let mut block = header(b"big", 0, b'0', true);
    // size = 0x1_0000_0001, stored base-256
    let mut size_field = [0u8; 12];
    size_field[0] = 0x80;
    size_field[7] = 0x01;
    size_field[11] = 0x01;
    set(&mut block, 124, &size_field);
    finish_checksum(&mut block);
    let ar = Archive::new(terminate(block));
    let mut it = ar.entries().unwrap();
    let e = it.next_entry().unwrap().unwrap();
    assert_eq!(e.size, 0x1_0000_0001);
}

#[test]
fn octal_with_leading_spaces_parses() {
    let mut block = header(b"sp", 0, b'0', false);
    set(&mut block, 124, b"   17 \0     ");
    finish_checksum(&mut block);
    let ar = Archive::new(terminate(block));
    let mut it = ar.entries().unwrap();
    let e = it.next_entry().unwrap().unwrap();
    assert_eq!(e.size, 0o17);
}

#[test]
fn checksum_mismatch_detected_on_single_byte_change() {
    let mut bytes = simple_archive();
    // flip one byte of the first header's name field
    bytes[1] ^= 0x01;
    let ar = Archive::new(bytes);
    let mut it = ar.entries().unwrap();
    assert!(matches!(it.next_entry(), Err(Error::ChecksumMismatch)));
}

#[test]
fn bad_numeric_field_is_an_error() {
    let mut block = header(b"bad", 0, b'0', false);
    set(&mut block, 124, b"zzzzzzzzzzz\0");
    finish_checksum(&mut block);
    let ar = Archive::new(terminate(block));
    let mut it = ar.entries().unwrap();
    assert!(matches!(it.next_entry(), Err(Error::BadNumericField)));
}

#[test]
fn size_overflow_is_an_error() {
    let mut block = header(b"huge", 0, b'0', false);
    // base-256 for the largest 64-bit size: rounding it up must overflow
    let mut size_field = [0u8; 12];
    size_field[0] = 0x80;
    for i in 4..12 {
        size_field[i] = 0xff;
    }
    set(&mut block, 124, &size_field);
    finish_checksum(&mut block);
    let ar = Archive::new(terminate(block));
    let mut it = ar.entries().unwrap();
    assert!(matches!(it.next_entry(), Err(Error::SizeOverflow)));
}

#[test]
fn truncated_header_is_an_error() {
    let mut bytes = header(b"t", 0, b'0', false);
    bytes.truncate(100);
    let ar = Archive::new(bytes);
    let mut it = ar.entries().unwrap();
    assert!(matches!(it.next_entry(), Err(Error::TruncatedBlock)));
}

#[test]
fn skip_past_end_is_an_error() {
    // one entry whose declared size runs past the end of the stream
    let bytes = header(b"t", 4096, b'0', false);
    let ar = Archive::new(bytes);
    let mut it = ar.entries().unwrap();
    let first = it.next_entry().unwrap();
    assert!(first.is_some());
    assert!(matches!(it.next_entry(), Err(Error::UnexpectedEof)));
}

#[test]
fn empty_input_has_no_entries() {
    let ar = Archive::new(Vec::new());
    let mut it = ar.entries().unwrap();
    assert!(matches!(it.next_entry(), Ok(None)));
    assert!(it.is_terminated());
    assert!(matches!(it.next_entry(), Ok(None)));
}

#[test]
fn entries_demands_start_position() {
    let mut ar = Archive::new(simple_archive());
    ar.inner.pos = 1;
    assert!(ar.entries().is_err());
}

#[test]
fn skip_safety_partial_body_read_keeps_iteration_correct() {
    // a large first entry; consume only the first byte of its body, then
    // ask for the next entry
    let big = vec![b'x'; 100_000];
    let mut bytes = entry(b"big", &big, b'0');
    bytes.extend_from_slice(&entry(b"next", b"tail", b'0'));
    let ar = Archive::new(terminate(bytes));
    let mut it = ar.entries().unwrap();
    let first = it.next_entry().unwrap().unwrap();
    let body = first.body(&ar.data);
    assert_eq!(body[0], b'x');
    // only the first byte was looked at; advancing is unaffected
    let second = it.next_entry().unwrap().unwrap();
    assert_eq!(second.path_bytes(), b"next".to_vec());
    assert_eq!(second.body(&ar.data), b"tail".to_vec());
}

#[test]
fn raw_mode_yields_physical_records() {
    let mut bytes = entry(b"././@LongLink", b"longname\0", b'L');
    bytes.extend_from_slice(&entry(b"real", b"", b'0'));
    let ar = Archive::new(terminate(bytes));
    let mut it = ar.entries().unwrap().raw(true);
    let first = it.next_entry().unwrap().unwrap();
    assert!(matches!(first.entry_type(), EntryType::GnuLongName));
    let second = it.next_entry().unwrap().unwrap();
    assert_eq!(second.path_bytes(), b"real".to_vec());
    assert!(second.long_pathname.is_none());
}

#[test]
fn entries_with_seek_matches_entries() {
    let ar = Archive::new(simple_archive());
    let mut a = ar.entries().unwrap();
    let mut b = ar.entries_with_seek().unwrap();
    loop {
        let x = a.next_entry().unwrap();
        let y = b.next_entry().unwrap();
        match (x, y) {
            (None, None) => break,
            (Some(e1), Some(e2)) => {
                assert_eq!(e1.path_bytes(), e2.path_bytes());
                assert_eq!(e1.size, e2.size);
            }
            _ => panic!("iterators disagree"),
        }
    }
}

#[test]
fn header_variant_detection() {
    let u = header(b"u", 0, b'0', false);
    let g = header(b"g", 0, b'0', true);
    let mut old = header(b"o", 0, b'0', false);
    set(&mut old, 257, &[0u8; 8]);
    finish_checksum(&mut old);
    let ar_u = Archive::new(terminate(u));
    let ar_g = Archive::new(terminate(g));
    let ar_o = Archive::new(terminate(old));
    let e_u = &list_entries(&ar_u)[0];
    let e_g = &list_entries(&ar_g)[0];
    let e_o = &list_entries(&ar_o)[0];
    assert!(matches!(e_u.header.variant(), HeaderVariant::Ustar));
    assert!(matches!(e_g.header.variant(), HeaderVariant::Gnu));
    assert!(matches!(e_o.header.variant(), HeaderVariant::Old));
}

fn sparse_header(descs: &[(u64, u64)], size: u64, realsize: u64, gnu: bool) -> Vec<u8> {
    let mut block = vec![0u8; 512];
    set(&mut block, 0, b"sparse.txt");
    set(&mut block, 100, &octal_field(0o644, 8));
    set(&mut block, 108, &octal_field(0, 8));
    set(&mut block, 116, &octal_field(0, 8));
    set(&mut block, 124, &octal_field(size, 12));
    set(&mut block, 136, &octal_field(0, 12));
    block[156] = b'S';
    if gnu {
        set(&mut block, 257, b"ustar ");
        set(&mut block, 263, b" \x00");
    } else {
        set(&mut block, 257, b"ustar\x00");
        set(&mut block, 263, b"00");
    }
    for (i, (off, len)) in descs.iter().enumerate().take(4) {
        set(&mut block, 386 + 24 * i, &octal_field(*off, 12));
        set(&mut block, 398 + 24 * i, &octal_field(*len, 12));
    }
    set(&mut block, 483, &octal_field(realsize, 12));
    finish_checksum(&mut block);
    block
}

fn chunk512(content: &[u8]) -> Vec<u8> {
    let mut c = content.to_vec();
    c.resize(512, 0);
    c
}

#[test]
fn sparse_file_body_reassembles_data_and_holes() {
    let mut bytes = sparse_header(
        &[(0x1000, 0x200), (0x2fa0, 0x200), (0x4000, 0)],
        0x400,
        0x4000,
        true,
    );
    bytes.extend_from_slice(&chunk512(b"hello\n"));
    bytes.extend_from_slice(&chunk512(b"world\n"));
    let ar = Archive::new(terminate(bytes));
    let entries = list_entries(&ar);
    assert_eq!(entries.len(), 1);
    let e = &entries[0];
    assert_eq!(e.size, 0x4000);
    let body = e.body(&ar.data);
    let mut expected = vec![0u8; 0x1000];
    expected.extend_from_slice(b"hello\n");
    expected.extend_from_slice(&vec![0u8; 0x2fa0 - 0x1006]);
    expected.extend_from_slice(b"world\n");
    expected.extend_from_slice(&vec![0u8; 0x4000 - 0x2fa6]);
    assert_eq!(body.len(), expected.len());
    assert_eq!(body, expected);
}

#[test]
fn sparse_extension_blocks_extend_the_descriptor_list() {
    // inline slots announce an extension block carrying the rest
    let mut block = sparse_header(&[(0, 0x200)], 0x400, 0x2000, true);
    block[482] = 1;
    finish_checksum(&mut block);
    let mut ext = vec![0u8; 512];
    set(&mut ext, 0, &octal_field(0x1000, 12));
    set(&mut ext, 12, &octal_field(0x200, 12));
    // a final marker descriptor reaching the real size
    set(&mut ext, 24, &octal_field(0x2000, 12));
    set(&mut ext, 36, &octal_field(0, 12));
    let mut bytes = block;
    bytes.extend_from_slice(&ext);
    bytes.extend_from_slice(&chunk512(b"first\n"));
    bytes.extend_from_slice(&chunk512(b"second\n"));
    let ar = Archive::new(terminate(bytes));
    let entries = list_entries(&ar);
    assert_eq!(entries.len(), 1);
    let e = &entries[0];
    assert_eq!(e.size, 0x2000);
    let body = e.body(&ar.data);
    assert_eq!(&body[0..6], b"first\n");
    assert_eq!(&body[0x1000..0x1007], b"second\n");
    assert!(body[0x200..0x1000].iter().all(|b| *b == 0));
}

#[test]
fn sparse_on_non_gnu_header_is_an_error() {
    let mut bytes = sparse_header(&[(0, 0x200), (0x200, 0)], 0x200, 0x200, false);
    bytes.extend_from_slice(&chunk512(b"x"));
    let ar = Archive::new(terminate(bytes));
    let mut it = ar.entries().unwrap();
    assert!(matches!(it.next_entry(), Err(Error::SparseNotGnu)));
}

#[test]
fn sparse_out_of_order_descriptors_are_an_error() {
    let mut bytes = sparse_header(&[(0x1000, 0x200), (0x800, 0x200)], 0x400, 0x1200, true);
    bytes.extend_from_slice(&chunk512(b"x"));
    bytes.extend_from_slice(&chunk512(b"y"));
    let ar = Archive::new(terminate(bytes));
    let mut it = ar.entries().unwrap();
    assert!(matches!(it.next_entry(), Err(Error::SparseOutOfOrder)));
}

#[test]
fn sparse_unaligned_chunk_is_an_error() {
    // the first chunk ends mid-block, so the second cannot start aligned
    let mut bytes = sparse_header(&[(0, 6), (0x1000, 6)], 12, 0x1006, true);
    bytes.extend_from_slice(&chunk512(b"hello\nworld\n"));
    let ar = Archive::new(terminate(bytes));
    let mut it = ar.entries().unwrap();
    assert!(matches!(it.next_entry(), Err(Error::SparseUnaligned)));
}

#[test]
fn sparse_consuming_more_than_listed_is_an_error() {
    let mut bytes = sparse_header(&[(0, 0x400)], 0x200, 0x400, true);
    bytes.extend_from_slice(&chunk512(b"x"));
    let ar = Archive::new(terminate(bytes));
    let mut it = ar.entries().unwrap();
    assert!(matches!(it.next_entry(), Err(Error::SparseTooMuchData)));
}

#[test]
fn sparse_real_size_mismatch_is_an_error() {
    let mut bytes = sparse_header(&[(0, 0x200), (0x200, 0x200)], 0x400, 0x4000, true);
    bytes.extend_from_slice(&chunk512(b"x"));
    bytes.extend_from_slice(&chunk512(b"y"));
    let ar = Archive::new(terminate(bytes));
    let mut it = ar.entries().unwrap();
    assert!(matches!(it.next_entry(), Err(Error::SparseRealSizeMismatch)));
}

#[test]
fn sparse_leftover_stored_data_is_an_error() {
    let mut bytes = sparse_header(&[(0, 0x200), (0x200, 0)], 0x400, 0x200, true);
    bytes.extend_from_slice(&chunk512(b"x"));
    bytes.extend_from_slice(&chunk512(b"y"));
    let ar = Archive::new(terminate(bytes));
    let mut it = ar.entries().unwrap();
    assert!(matches!(it.next_entry(), Err(Error::SparseLeftoverData)));
}

#[test]
fn sparse_missing_extension_block_is_an_error() {
    let mut block = sparse_header(&[(0, 0x200)], 0x200, 0x200, true);
    block[482] = 1;
    finish_checksum(&mut block);
    let ar = Archive::new(block);
    let mut it = ar.entries().unwrap();
    assert!(matches!(it.next_entry(), Err(Error::MissingSparseExtension)));
}

#[test]
fn into_inner_returns_the_bytes() {
    let bytes = simple_archive();
    let ar = Archive::new(bytes.clone());
    assert_eq!(ar.into_inner(), bytes);
    assert_eq!(tar_core::BLOCK_SIZE, 512);
}
