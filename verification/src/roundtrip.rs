//! The writer's side of the wire format, and the round-trip laws.
//!
//! A conforming writer lays a simple member down as one ustar header
//! block, the payload, and zero padding to a block boundary, and ends the
//! archive with two zero blocks. This module writes that encoding down at
//! specification level and proves the reader against it: listing a
//! written archive yields the original names, sizes and bytes, and
//! concatenated archives list as their entries joined (with zero blocks
//! skipped) or as the first archive alone (without).

use vstd::prelude::*;

use crate::archive::{
    logical_next, raw_next, scan_header, EntryG, NextOutcomeG, RawOutcomeG, ScanG,
};
use crate::entry::{plan_bytes, read_avail, zero_seq, Seg};
use crate::error::Error;
use crate::extract::{lemma_logical_next_bounds, path_of_g};
use crate::header::{
    classify_spec, header_path_spec, header_sum, is_zero_block, sum_bytes, trunc_nul,
    variant_spec, EntryType, HeaderVariant,
};
use crate::num::{
    field, octal_digits, parse_numeric_spec, parse_octal_spec, round_up_block,
};

verus! {

/// Eight to the `d`.
pub open spec fn pow8(d: int) -> int
    decreases d,
{
    if d <= 0 {
        1
    } else {
        8 * pow8(d - 1)
    }
}

proof fn lemma_pow8_pos(d: int)
    ensures
        pow8(d) >= 1,
    decreases d,
{
    if d > 0 {
        lemma_pow8_pos(d - 1);
    }
}

/// `v` as `d` ASCII-octal digits, most significant first.
pub open spec fn oct(v: int, d: int) -> Seq<u8>
    decreases d,
{
    if d <= 0 {
        Seq::empty()
    } else {
        seq![(0x30 + v / pow8(d - 1)) as u8] + oct(v % pow8(d - 1), d - 1)
    }
}

proof fn lemma_oct_len(v: int, d: int)
    requires
        d >= 0,
    ensures
        oct(v, d).len() == d,
    decreases d,
{
    if d > 0 {
        lemma_oct_len(v % pow8(d - 1), d - 1);
    }
}

/// Scanning rendered digits accumulates exactly the rendered value.
proof fn lemma_oct_scan(v: int, d: int, a: int, tail: Seq<u8>)
    requires
        d >= 0,
        0 <= v < pow8(d),
        0 <= a,
        a * pow8(d) + v <= u64::MAX,
    ensures
        octal_digits(oct(v, d) + tail, a) == octal_digits(tail, a * pow8(d) + v),
    decreases d,
{
    lemma_pow8_pos(d);
    if d == 0 {
        assert(oct(v, 0) + tail =~= tail);
        assert(a * pow8(0) + v == a);
    } else {
        let p = pow8(d - 1);
        lemma_pow8_pos(d - 1);
        vstd::arithmetic::div_mod::lemma_fundamental_div_mod(v, p);
        vstd::arithmetic::div_mod::lemma_mod_division_less_than_divisor(v, p);
        let q = v / p;
        let r = v % p;
        assert(0 <= q < 8) by (nonlinear_arith)
            requires
                v == p * q + r,
                0 <= r < p,
                0 <= v < 8 * p,
                p >= 1,
        ;
        let b = (0x30 + q) as u8;
        assert(oct(v, d) + tail =~= seq![b] + (oct(r, d - 1) + tail));
        let s = oct(v, d) + tail;
        assert(s[0] == b);
        assert(crate::num::is_octal_digit(b));
        assert(s.drop_first() =~= oct(r, d - 1) + tail);
        let a2 = a * 8 + q;
        assert(a2 * p + r == a * pow8(d) + v) by (nonlinear_arith)
            requires
                a2 == a * 8 + q,
                v == p * q + r,
                pow8(d) == 8 * p,
        ;
        assert(a2 * p >= 0) by (nonlinear_arith)
            requires
                a2 >= 0,
                p >= 1,
        ;
        assert(a2 <= a2 * p) by (nonlinear_arith)
            requires
                a2 >= 0,
                p >= 1,
        ;
        assert(a * 8 + (s[0] - 0x30) <= u64::MAX);
        lemma_oct_scan(r, d - 1, a2, tail);
        assert(octal_digits(s, a) == octal_digits(oct(r, d - 1) + tail, a2));
    }
}

/// A rendered octal field — digits, then a NUL, then anything — parses
/// back to the rendered value.
proof fn lemma_oct_field_parses(v: int, d: int, junk: Seq<u8>)
    requires
        d >= 1,
        0 <= v < pow8(d),
        v <= u64::MAX,
    ensures
        parse_octal_spec(oct(v, d) + seq![0u8] + junk) == Some(v),
{
    lemma_pow8_pos(d - 1);
    let p = pow8(d - 1);
    vstd::arithmetic::div_mod::lemma_fundamental_div_mod(v, p);
    vstd::arithmetic::div_mod::lemma_mod_division_less_than_divisor(v, p);
    let q = v / p;
    let r = v % p;
    assert(0 <= q < 8) by (nonlinear_arith)
        requires
            v == p * q + r,
            0 <= r < p,
            0 <= v < 8 * p,
            p >= 1,
    ;
    let b = (0x30 + q) as u8;
    let s = oct(v, d) + seq![0u8] + junk;
    assert(oct(v, d) =~= seq![b] + oct(r, d - 1));
    assert(s[0] == b);
    assert(crate::num::is_octal_digit(b));
    assert(s.drop_first() =~= oct(r, d - 1) + (seq![0u8] + junk));
    assert(q * p + r == v) by (nonlinear_arith)
        requires
            v == p * q + r,
    ;
    lemma_oct_scan(r, d - 1, q, seq![0u8] + junk);
    assert(octal_digits(oct(r, d - 1) + (seq![0u8] + junk), q) == octal_digits(
        seq![0u8] + junk,
        v,
    ));
    assert((seq![0u8] + junk)[0] == 0);
    assert(octal_digits(seq![0u8] + junk, v) == Some(v));
}

/// A rendered octal field also parses as a size-like numeric field.
proof fn lemma_num_field_parses(v: int, d: int, junk: Seq<u8>)
    requires
        d >= 1,
        0 <= v < pow8(d),
        v <= u64::MAX,
    ensures
        parse_numeric_spec(oct(v, d) + seq![0u8] + junk) == Some(v),
{
    lemma_oct_field_parses(v, d, junk);
    lemma_pow8_pos(d - 1);
    let p = pow8(d - 1);
    vstd::arithmetic::div_mod::lemma_fundamental_div_mod(v, p);
    vstd::arithmetic::div_mod::lemma_mod_division_less_than_divisor(v, p);
    let q = v / p;
    let r = v % p;
    assert(0 <= q < 8) by (nonlinear_arith)
        requires
            v == p * q + r,
            0 <= r < p,
            0 <= v < 8 * p,
            p >= 1,
    ;
    let s = oct(v, d) + seq![0u8] + junk;
    assert(oct(v, d) =~= seq![(0x30 + q) as u8] + oct(r, d - 1));
    assert(s[0] == (0x30 + q) as u8);
    assert(s[0] < 128);
    assert(s.len() > 0);
}

/// Sums agree where the bytes agree.
proof fn lemma_sum_agree(s: Seq<u8>, t: Seq<u8>, lo: int, hi: int)
    requires
        forall|j: int| lo <= j < hi ==> s[j] == t[j],
    ensures
        sum_bytes(s, lo, hi) == sum_bytes(t, lo, hi),
    decreases hi - lo,
{
    if lo < hi {
        lemma_sum_agree(s, t, lo, hi - 1);
    }
}

/// A range sum is the sum of the extracted range.
proof fn lemma_sum_sub(s: Seq<u8>, lo: int, hi: int)
    requires
        0 <= lo <= hi <= s.len(),
    ensures
        sum_bytes(s, lo, hi) == sum_bytes(s.subrange(lo, hi), 0, hi - lo),
    decreases hi - lo,
{
    if lo < hi {
        lemma_sum_sub(s, lo, hi - 1);
        assert(sum_bytes(s.subrange(lo, hi - 1), 0, hi - 1 - lo) == sum_bytes(
            s.subrange(lo, hi),
            0,
            hi - 1 - lo,
        )) by {
            lemma_sum_agree(s.subrange(lo, hi - 1), s.subrange(lo, hi), 0, hi - 1 - lo);
        }
        assert(s.subrange(lo, hi)[hi - 1 - lo] == s[hi - 1]);
    }
}

/// Byte sums stay between zero and 255 per byte.
proof fn lemma_sum_bound(s: Seq<u8>, lo: int, hi: int)
    ensures
        0 <= sum_bytes(s, lo, hi),
        sum_bytes(s, lo, hi) <= 255 * (if hi >= lo {
            hi - lo
        } else {
            0
        }),
    decreases hi - lo,
{
    if lo < hi {
        lemma_sum_bound(s, lo, hi - 1);
    }
}

/// An eight-byte numeric field: seven octal digits and a NUL.
pub open spec fn num8(v: int) -> Seq<u8> {
    oct(v, 7) + seq![0u8]
}

/// A twelve-byte numeric field: eleven octal digits and a NUL.
pub open spec fn num12(v: int) -> Seq<u8> {
    oct(v, 11) + seq![0u8]
}

/// The checksum field: six octal digits, a NUL and a space.
pub open spec fn cksum_field(v: int) -> Seq<u8> {
    oct(v, 6) + seq![0u8] + seq![0x20u8]
}

/// The name field: the name, padded with NULs to 100 bytes.
pub open spec fn name_field(name: Seq<u8>) -> Seq<u8> {
    name + zero_seq(100 - name.len())
}

/// The header bytes before the checksum field: name, mode 644, owner and
/// group zero, the size, and modification time zero.
pub open spec fn part_a(name: Seq<u8>, size: int) -> Seq<u8> {
    name_field(name) + num8(0o644) + num8(0) + num8(0) + num12(size) + num12(0)
}

/// The header bytes after the checksum field: type flag '0', an empty
/// link name, the ustar magic and version, and zeroed tail fields.
pub open spec fn part_b() -> Seq<u8> {
    seq![0x30u8] + zero_seq(100) + seq![0x75u8, 0x73u8, 0x74u8, 0x61u8, 0x72u8, 0u8] + seq![
        0x30u8,
        0x30u8,
    ] + zero_seq(247)
}

/// The checksum a conforming writer stores.
pub open spec fn enc_sum(name: Seq<u8>, size: int) -> int {
    sum_bytes(part_a(name, size), 0, 148) + 256 + sum_bytes(part_b(), 0, 356)
}

/// One written header block.
pub open spec fn enc_header(name: Seq<u8>, size: int) -> Seq<u8> {
    part_a(name, size) + cksum_field(enc_sum(name, size)) + part_b()
}

/// A member a conforming writer can lay down: a plainly named regular
/// file whose size octal rendering fits its field.
pub struct FileG {
    pub name: Seq<u8>,
    pub data: Seq<u8>,
}

pub open spec fn wf_file(f: FileG) -> bool {
    &&& 1 <= f.name.len() <= 100
    &&& !f.name.contains(0)
    &&& f.data.len() < pow8(11)
}

/// One written member: header, payload, zero padding to a whole block.
pub open spec fn enc_entry(f: FileG) -> Seq<u8> {
    enc_header(f.name, f.data.len() as int) + f.data + zero_seq(
        round_up_block(f.data.len() as int) - f.data.len(),
    )
}

/// How many archive bytes one member occupies.
pub open spec fn enc_len(f: FileG) -> int {
    512 + round_up_block(f.data.len() as int)
}

/// The members, written back to back.
pub open spec fn enc_entries(files: Seq<FileG>) -> Seq<u8>
    decreases files.len(),
{
    if files.len() == 0 {
        Seq::empty()
    } else {
        enc_entry(files[0]) + enc_entries(files.drop_first())
    }
}

/// A whole written archive: the members, then the two-block end marker.
pub open spec fn enc_archive(files: Seq<FileG>) -> Seq<u8> {
    enc_entries(files) + zero_seq(1024)
}

proof fn lemma_part_lens(name: Seq<u8>, size: int)
    requires
        name.len() <= 100,
    ensures
        part_a(name, size).len() == 148,
        part_b().len() == 356,
        enc_header(name, size).len() == 512,
        cksum_field(enc_sum(name, size)).len() == 8,
{
    lemma_oct_len(0o644, 7);
    lemma_oct_len(0, 7);
    lemma_oct_len(size, 11);
    lemma_oct_len(0, 11);
    lemma_oct_len(enc_sum(name, size), 6);
}

proof fn lemma_enc_sum_range(name: Seq<u8>, size: int)
    requires
        name.len() <= 100,
    ensures
        0 <= enc_sum(name, size) < pow8(6),
{
    lemma_sum_bound(part_a(name, size), 0, 148);
    lemma_sum_bound(part_b(), 0, 356);
    reveal_with_fuel(pow8, 7);
}

/// The name comes back out of its padded field.
proof fn lemma_trunc_pad(name: Seq<u8>, width: int)
    requires
        0 <= name.len() <= width,
        !name.contains(0),
    ensures
        trunc_nul(name + zero_seq(width - name.len())) == name,
    decreases name.len(),
{
    let s = name + zero_seq(width - name.len());
    if name.len() == 0 {
        if s.len() == 0 {
            assert(trunc_nul(s) =~= name);
        } else {
            assert(s[0] == 0);
            assert(trunc_nul(s) =~= name);
        }
    } else {
        assert(s[0] == name[0]);
        assert(name[0] != 0) by {
            if name[0] == 0 {
                assert(name.contains(0));
            }
        }
        assert(!name.drop_first().contains(0)) by {
            if name.drop_first().contains(0) {
                let w = choose|w: int|
                    0 <= w < name.drop_first().len() && name.drop_first()[w] == 0;
                assert(name[w + 1] == 0);
                assert(name.contains(0));
            }
        }
        lemma_trunc_pad(name.drop_first(), width - 1);
        assert(s.drop_first() =~= name.drop_first() + zero_seq(
            width - 1 - name.drop_first().len(),
        ));
        assert(trunc_nul(s) =~= seq![name[0]] + name.drop_first());
        assert(seq![name[0]] + name.drop_first() =~= name);
    }
}

/// Everything the reader asks of a written header block.
proof fn lemma_enc_header_fields(name: Seq<u8>, size: int)
    requires
        1 <= name.len() <= 100,
        !name.contains(0),
        0 <= size < pow8(11),
    ensures
        enc_header(name, size).len() == 512,
        !is_zero_block(enc_header(name, size)),
        parse_octal_spec(field(enc_header(name, size), 148, 8)) == Some(
            header_sum(enc_header(name, size)),
        ),
        parse_numeric_spec(field(enc_header(name, size), 124, 12)) == Some(size),
        variant_spec(enc_header(name, size)) == HeaderVariant::Ustar,
        classify_spec(enc_header(name, size)[156]) == EntryType::Regular,
        header_path_spec(enc_header(name, size)) == name,
{
    lemma_part_lens(name, size);
    lemma_enc_sum_range(name, size);
    let h = enc_header(name, size);
    let a = part_a(name, size);
    let b = part_b();
    let c = cksum_field(enc_sum(name, size));
    lemma_oct_len(enc_sum(name, size), 6);
    lemma_oct_len(size, 11);
    lemma_oct_len(0o644, 7);
    lemma_oct_len(0, 7);
    lemma_oct_len(0, 11);
    // the magic byte keeps the block from reading as an end marker
    assert(h[257] == b[101]);
    assert(b[101] == 0x75);
    assert(!is_zero_block(h));
    // the checksum field parses back to the stored sum, which is the
    // sum the reader computes
    assert(field(h, 148, 8) =~= c);
    reveal_with_fuel(pow8, 7);
    lemma_oct_field_parses(enc_sum(name, size), 6, seq![0x20u8]);
    assert(c =~= oct(enc_sum(name, size), 6) + seq![0u8] + seq![0x20u8]);
    assert(header_sum(h) == enc_sum(name, size)) by {
        lemma_sum_sub(h, 0, 148);
        assert(h.subrange(0, 148) =~= a);
        lemma_sum_sub(h, 156, 512);
        assert(h.subrange(156, 512) =~= b);
        lemma_sum_sub(a, 0, 148);
        assert(a.subrange(0, 148) =~= a);
        lemma_sum_sub(b, 0, 356);
        assert(b.subrange(0, 356) =~= b);
    }
    // the size field
    assert(field(h, 124, 12) =~= num12(size));
    assert(num12(size) =~= oct(size, 11) + seq![0u8] + Seq::<u8>::empty());
    lemma_num_field_parses(size, 11, Seq::empty());
    // magic, version, type flag
    assert(h[262] == b[106] && b[106] == 0);
    assert(h[263] == b[107] && b[107] == 0x30);
    assert(h[264] == b[108] && b[108] == 0x30);
    assert(h[258] == b[102] && b[102] == 0x73);
    assert(h[259] == b[103] && b[103] == 0x74);
    assert(h[260] == b[104] && b[104] == 0x61);
    assert(h[261] == b[105] && b[105] == 0x72);
    assert(variant_spec(h) == HeaderVariant::Ustar);
    assert(h[156] == b[0] && b[0] == 0x30);
    // the path: the padded name, and an all-zero prefix field
    assert(field(h, 0, 100) =~= name_field(name));
    lemma_trunc_pad(name, 100);
    assert(field(h, 345, 155) =~= zero_seq(155)) by {
        assert forall|j: int| 0 <= j < 155 implies field(h, 345, 155)[j] == 0 by {
            assert(field(h, 345, 155)[j] == h[345 + j]);
            assert(h[345 + j] == b[189 + j]);
        }
    }
    assert(trunc_nul(zero_seq(155)) =~= Seq::<u8>::empty());
}

/// Every member is well formed.
pub open spec fn wf_files(files: Seq<FileG>) -> bool {
    forall|i: int| 0 <= i < files.len() ==> wf_file(#[trigger] files[i])
}

/// The archive bytes a member list occupies, end marker excluded.
pub open spec fn total_len(files: Seq<FileG>) -> int
    decreases files.len(),
{
    if files.len() == 0 {
        0
    } else {
        enc_len(files[0]) + total_len(files.drop_first())
    }
}

/// The entry the reader is expected to deliver for a member written at
/// position `p`.
pub open spec fn expected_g(f: FileG, p: int) -> EntryG {
    EntryG {
        header: enc_header(f.name, f.data.len() as int),
        header_pos: p,
        file_pos: p + 512,
        size: f.data.len() as int,
        next: p + enc_len(f),
        pax_uid: None,
        pax_gid: None,
        long_path: None,
        long_link: None,
        pax: None,
        segs: seq![
            Seg::Stored { pos: (p + 512) as u64, len: f.data.len() as u64 },
        ],
    }
}

/// The entries the reader is expected to deliver for members written
/// back to back from `base` on.
pub open spec fn expected_list(files: Seq<FileG>, base: int) -> Seq<EntryG>
    decreases files.len(),
{
    if files.len() == 0 {
        Seq::empty()
    } else {
        seq![expected_g(files[0], base)] + expected_list(
            files.drop_first(),
            base + enc_len(files[0]),
        )
    }
}

/// All the entries of an archive, in order, as the coalescing advance
/// delivers them.
pub open spec fn entries_list(d: Seq<u8>, next: int, iz: bool) -> Result<Seq<EntryG>, Error>
    decreases crate::archive::stream_measure(d, next),
    via entries_list_decreases
{
    match logical_next(d, next, iz, None, None, None, false) {
        NextOutcomeG::Fail(e) => Err(e),
        NextOutcomeG::NoMore => Ok(Seq::empty()),
        NextOutcomeG::Next(eg) => match entries_list(d, eg.next, iz) {
            Err(e) => Err(e),
            Ok(l) => Ok(seq![eg] + l),
        },
    }
}

#[via_fn]
proof fn entries_list_decreases(d: Seq<u8>, next: int, iz: bool) {
    lemma_logical_next_bounds(d, next, iz, None, None, None, false);
}

proof fn lemma_enc_len_bounds(f: FileG)
    requires
        wf_file(f),
    ensures
        512 <= enc_len(f),
        f.data.len() <= round_up_block(f.data.len() as int) == enc_len(f) - 512,
        f.data.len() as int + 511 <= u64::MAX,
        enc_entry(f).len() == enc_len(f),
{
    lemma_part_lens(f.name, f.data.len() as int);
    reveal_with_fuel(pow8, 12);
}

/// One written member parses to exactly the expected entry, whatever the
/// zero-block setting, and its body plan reads back the written bytes.
proof fn lemma_parse_one(d: Seq<u8>, p: int, f: FileG, iz: bool)
    requires
        wf_file(f),
        0 <= p,
        p + enc_len(f) <= d.len(),
        d.len() <= u64::MAX,
        d.subrange(p, p + enc_len(f)) == enc_entry(f),
    ensures
        logical_next(d, p, iz, None, None, None, false) == NextOutcomeG::Next(expected_g(f, p)),
        plan_bytes(d, expected_g(f, p).segs) == f.data,
{
    let size = f.data.len() as int;
    let h = enc_header(f.name, size);
    lemma_enc_header_fields(f.name, size);
    lemma_enc_len_bounds(f);
    reveal_with_fuel(pow8, 12);
    assert(d.subrange(p, p + 512) =~= h) by {
        assert forall|j: int| 0 <= j < 512 implies d.subrange(p, p + 512)[j] == h[j] by {
            assert(d.subrange(p, p + 512)[j] == d[p + j]);
            assert(d[p + j] == d.subrange(p, p + enc_len(f))[j]);
            assert(enc_entry(f)[j] == h[j]);
        }
    }
    assert(scan_header(d, p, iz) == ScanG::Found(p));
    let re = (match raw_next(d, p, iz, None) {
        RawOutcomeG::Next(re) => re,
        _ => arbitrary(),
    });
    assert(round_up_block(size) <= u64::MAX);
    assert(raw_next(d, p, iz, None) == RawOutcomeG::Next(re) && re.header_pos == p && re.header
        == h && re.file_pos == p + 512 && re.size == size && re.next == p + enc_len(f)
        && re.pax_uid is None && re.pax_gid is None);
    assert(logical_next(d, p, iz, None, None, None, false) == NextOutcomeG::Next(
        expected_g(f, p),
    ));
    // the body plan reads the written bytes back
    let segs = expected_g(f, p).segs;
    assert(plan_bytes(d, segs) =~= read_avail(d, p + 512, size)) by {
        assert(segs[0] == Seg::Stored { pos: (p + 512) as u64, len: f.data.len() as u64 });
        assert(seg_bytes_of(d, segs[0]) =~= read_avail(d, p + 512, size));
        assert(plan_bytes(d, segs.drop_first()) =~= Seq::<u8>::empty()) by {
            assert(segs.drop_first() =~= Seq::<Seg>::empty());
            assert(plan_bytes(d, Seq::<Seg>::empty()).len() == 0);
        }
        assert(seg_bytes_of(d, segs[0]) + Seq::<u8>::empty() =~= seg_bytes_of(d, segs[0]));
    }
    assert(read_avail(d, p + 512, size) =~= f.data) by {
        assert(p + 512 + size <= d.len());
        assert forall|j: int| 0 <= j < size implies read_avail(d, p + 512, size)[j]
            == f.data[j] by {
            assert(read_avail(d, p + 512, size)[j] == d[p + 512 + j]);
            assert(d[p + 512 + j] == d.subrange(p, p + enc_len(f))[512 + j]);
            assert(enc_entry(f)[512 + j] == f.data[j]);
        }
    }
}

/// The bytes one segment contributes (a local alias keeping triggers
/// readable in the proofs above).
pub open spec fn seg_bytes_of(d: Seq<u8>, s: Seg) -> Seq<u8> {
    crate::entry::seg_bytes(d, s)
}

/// Parsing a written member run delivers the expected entries, then
/// whatever the bytes after the run deliver.
#[verifier::rlimit(100)]
proof fn lemma_list_enc(d: Seq<u8>, base: int, files: Seq<FileG>, iz: bool)
    requires
        wf_files(files),
        0 <= base,
        base + total_len(files) <= d.len(),
        d.len() <= u64::MAX,
        d.subrange(base, base + total_len(files)) == enc_entries(files),
    ensures
        entries_list(d, base, iz) == (match entries_list(d, base + total_len(files), iz) {
            Err(e) => Err::<Seq<EntryG>, Error>(e),
            Ok(l) => Ok(expected_list(files, base) + l),
        }),
    decreases files.len(),
{
    if files.len() == 0 {
        match entries_list(d, base, iz) {
            Err(_) => {},
            Ok(l) => {
                assert(expected_list(files, base) + l =~= l);
            },
        }
    } else {
        let f0 = files[0];
        assert(wf_file(f0));
        let rest = files.drop_first();
        lemma_enc_len_bounds(f0);
        lemma_total_nonneg(rest);
        assert(enc_entries(files) == enc_entry(f0) + enc_entries(rest));
        lemma_enc_entries_len(files);
        lemma_enc_entries_len(rest);
        assert(d.subrange(base, base + enc_len(f0)) =~= enc_entry(f0)) by {
            assert forall|j: int| 0 <= j < enc_len(f0) implies d.subrange(
                base,
                base + enc_len(f0),
            )[j] == enc_entry(f0)[j] by {
                assert(d.subrange(base, base + enc_len(f0))[j] == d[base + j]);
                assert(d[base + j] == d.subrange(base, base + total_len(files))[j]);
                assert(enc_entries(files)[j] == enc_entry(f0)[j]);
            }
        }
        lemma_parse_one(d, base, f0, iz);
        let base2 = base + enc_len(f0);
        assert(d.subrange(base2, base2 + total_len(rest)) =~= enc_entries(rest)) by {
            assert forall|j: int| 0 <= j < total_len(rest) implies d.subrange(
                base2,
                base2 + total_len(rest),
            )[j] == enc_entries(rest)[j] by {
                assert(d.subrange(base2, base2 + total_len(rest))[j] == d[base2 + j]);
                assert(d[base2 + j] == d.subrange(base, base + total_len(files))[enc_len(f0)
                    + j]);
                assert(enc_entries(files)[enc_len(f0) + j] == enc_entries(rest)[j]);
            }
        }
        lemma_list_enc(d, base2, rest, iz);
        match entries_list(d, base + total_len(files), iz) {
            Err(_) => {},
            Ok(l) => {
                assert(seq![expected_g(f0, base)] + (expected_list(rest, base2) + l)
                    =~= expected_list(files, base) + l);
            },
        }
    }
}

proof fn lemma_total_nonneg(files: Seq<FileG>)
    requires
        wf_files(files),
    ensures
        total_len(files) >= 0,
    decreases files.len(),
{
    if files.len() > 0 {
        assert(wf_file(files[0]));
        lemma_enc_len_bounds(files[0]);
        assert(wf_files(files.drop_first())) by {
            assert forall|i: int| 0 <= i < files.drop_first().len() implies wf_file(
                #[trigger] files.drop_first()[i],
            ) by {
                assert(files.drop_first()[i] == files[i + 1]);
            }
        }
        lemma_total_nonneg(files.drop_first());
    }
}

proof fn lemma_enc_entries_len(files: Seq<FileG>)
    requires
        wf_files(files),
    ensures
        enc_entries(files).len() == total_len(files),
    decreases files.len(),
{
    if files.len() > 0 {
        assert(wf_file(files[0]));
        lemma_enc_len_bounds(files[0]);
        assert(wf_files(files.drop_first())) by {
            assert forall|i: int| 0 <= i < files.drop_first().len() implies wf_file(
                #[trigger] files.drop_first()[i],
            ) by {
                assert(files.drop_first()[i] == files[i + 1]);
            }
        }
        lemma_enc_entries_len(files.drop_first());
    }
}

/// An end-of-archive marker ends the listing, with or without zero-block
/// skipping.
proof fn lemma_zeros_end(d: Seq<u8>, q: int, iz: bool)
    requires
        0 <= q,
        q + 1024 == d.len(),
        d.len() <= u64::MAX,
        forall|j: int| q <= j < d.len() ==> #[trigger] d[j] == 0,
    ensures
        entries_list(d, q, iz) == Ok::<Seq<EntryG>, Error>(Seq::empty()),
{
    assert(is_zero_block(d.subrange(q, q + 512))) by {
        assert forall|j: int| 0 <= j < 512 implies (#[trigger] d.subrange(q, q + 512)[j]) == 0 by {
            assert(d.subrange(q, q + 512)[j] == d[q + j]);
        }
    }
    if iz {
        assert(is_zero_block(d.subrange(q + 512, q + 1024))) by {
            assert forall|j: int| 0 <= j < 512 implies (#[trigger] d.subrange(q + 512, q + 1024)[j]) == 0 by {
                assert(d.subrange(q + 512, q + 1024)[j] == d[q + 512 + j]);
            }
        }
        assert(scan_header(d, q, iz) == scan_header(d, q + 512, iz));
        assert(scan_header(d, q + 512, iz) == scan_header(d, q + 1024, iz));
        assert(scan_header(d, q + 1024, iz) == ScanG::NoMore);
    } else {
        assert(scan_header(d, q, iz) == ScanG::NoMore);
    }
    assert(logical_next(d, q, iz, None, None, None, false) == NextOutcomeG::NoMore);
}

/// Round trip: listing an archive a conforming writer produced yields
/// exactly the written members — their names, their sizes, and bodies
/// that read back the written bytes.
pub proof fn lemma_writer_round_trip(files: Seq<FileG>)
    requires
        wf_files(files),
        enc_archive(files).len() <= u64::MAX,
    ensures
        entries_list(enc_archive(files), 0, false) == Ok::<Seq<EntryG>, Error>(
            expected_list(files, 0),
        ),
        expected_list(files, 0).len() == files.len(),
        forall|i: int|
            0 <= i < files.len() ==> {
                let eg = #[trigger] expected_list(files, 0)[i];
                &&& path_of_g(eg) == files[i].name
                &&& eg.size == files[i].data.len()
                &&& plan_bytes(enc_archive(files), eg.segs) == files[i].data
            },
{
    let d = enc_archive(files);
    lemma_enc_entries_len(files);
    lemma_total_nonneg(files);
    assert(d.subrange(0, total_len(files)) =~= enc_entries(files));
    lemma_list_enc(d, 0, files, false);
    assert forall|j: int| total_len(files) <= j < d.len() implies (#[trigger] d[j]) == 0 by {
        assert(d[j] == zero_seq(1024)[j - total_len(files)]);
    }
    lemma_zeros_end(d, total_len(files), false);
    assert(expected_list(files, 0) + Seq::<EntryG>::empty() =~= expected_list(files, 0));
    lemma_expected_props(d, 0, files);
    lemma_expected_len(files, 0);
}

proof fn lemma_expected_len(files: Seq<FileG>, base: int)
    ensures
        expected_list(files, base).len() == files.len(),
    decreases files.len(),
{
    if files.len() > 0 {
        lemma_expected_len(files.drop_first(), base + enc_len(files[0]));
    }
}

/// The expected entries carry the written names, sizes and bytes.
#[verifier::rlimit(100)]
proof fn lemma_expected_props(d: Seq<u8>, base: int, files: Seq<FileG>)
    requires
        wf_files(files),
        0 <= base,
        base + total_len(files) <= d.len(),
        d.len() <= u64::MAX,
        d.subrange(base, base + total_len(files)) == enc_entries(files),
    ensures
        forall|i: int|
            0 <= i < files.len() ==> {
                let eg = #[trigger] expected_list(files, base)[i];
                &&& path_of_g(eg) == files[i].name
                &&& eg.size == files[i].data.len()
                &&& plan_bytes(d, eg.segs) == files[i].data
            },
    decreases files.len(),
{
    if files.len() > 0 {
        let f0 = files[0];
        assert(wf_file(f0));
        let rest = files.drop_first();
        lemma_enc_len_bounds(f0);
        lemma_total_nonneg(rest);
        lemma_enc_entries_len(files);
        lemma_enc_entries_len(rest);
        assert(d.subrange(base, base + enc_len(f0)) =~= enc_entry(f0)) by {
            assert forall|j: int| 0 <= j < enc_len(f0) implies d.subrange(
                base,
                base + enc_len(f0),
            )[j] == enc_entry(f0)[j] by {
                assert(d.subrange(base, base + enc_len(f0))[j] == d[base + j]);
                assert(d[base + j] == d.subrange(base, base + total_len(files))[j]);
                assert(enc_entries(files)[j] == enc_entry(f0)[j]);
            }
        }
        lemma_parse_one(d, base, f0, false);
        lemma_enc_header_fields(f0.name, f0.data.len() as int);
        let base2 = base + enc_len(f0);
        assert(d.subrange(base2, base2 + total_len(rest)) =~= enc_entries(rest)) by {
            assert forall|j: int| 0 <= j < total_len(rest) implies d.subrange(
                base2,
                base2 + total_len(rest),
            )[j] == enc_entries(rest)[j] by {
                assert(d.subrange(base2, base2 + total_len(rest))[j] == d[base2 + j]);
                assert(d[base2 + j] == d.subrange(base, base + total_len(files))[enc_len(f0)
                    + j]);
                assert(enc_entries(files)[enc_len(f0) + j] == enc_entries(rest)[j]);
            }
        }
        lemma_expected_props(d, base2, rest);
        lemma_expected_len(rest, base2);
        lemma_expected_len(files, base);
        assert forall|i: int| 0 <= i < files.len() implies {
            let eg = #[trigger] expected_list(files, base)[i];
            &&& path_of_g(eg) == files[i].name
            &&& eg.size == files[i].data.len()
            &&& plan_bytes(d, eg.segs) == files[i].data
        } by {
            if i == 0 {
                assert(expected_list(files, base)[0] == expected_g(f0, base));
            } else {
                assert(expected_list(files, base)[i] == expected_list(rest, base2)[i - 1]);
                assert(rest[i - 1] == files[i]);
            }
        }
    }
}

/// Concatenation: with zero-block skipping off, an archive followed by
/// anything else lists as its own members alone; with skipping on, two
/// archives joined end to end list as both member runs in order.
#[verifier::rlimit(100)]
pub proof fn lemma_concatenation(xs: Seq<FileG>, ys: Seq<FileG>)
    requires
        wf_files(xs),
        wf_files(ys),
        enc_archive(xs).len() + enc_archive(ys).len() <= u64::MAX,
    ensures
        entries_list(enc_archive(xs) + enc_archive(ys), 0, false) == Ok::<Seq<EntryG>, Error>(
            expected_list(xs, 0),
        ),
        entries_list(enc_archive(xs) + enc_archive(ys), 0, true) == Ok::<Seq<EntryG>, Error>(
            expected_list(xs, 0) + expected_list(ys, enc_archive(xs).len() as int),
        ),
{
    let d = enc_archive(xs) + enc_archive(ys);
    lemma_enc_entries_len(xs);
    lemma_enc_entries_len(ys);
    lemma_total_nonneg(xs);
    lemma_total_nonneg(ys);
    let tx = total_len(xs);
    let ty = total_len(ys);
    let lx = enc_archive(xs).len() as int;
    assert(lx == tx + 1024);
    assert(d.subrange(0, tx) =~= enc_entries(xs)) by {
        assert forall|j: int| 0 <= j < tx implies (#[trigger] d.subrange(0, tx)[j])
            == enc_entries(xs)[j] by {
            assert(d.subrange(0, tx)[j] == d[j]);
            assert(d[j] == enc_archive(xs)[j]);
            assert(enc_archive(xs)[j] == enc_entries(xs)[j]);
        }
    }
    // the first terminator block reads as zeros
    assert forall|j: int| tx <= j < tx + 1024 implies (#[trigger] d[j]) == 0 by {
        assert(d[j] == enc_archive(xs)[j]);
        assert(enc_archive(xs)[j] == zero_seq(1024)[j - tx]);
    }
    assert(is_zero_block(d.subrange(tx, tx + 512))) by {
        assert forall|j: int| 0 <= j < 512 implies (#[trigger] d.subrange(tx, tx + 512)[j])
            == 0 by {
            assert(d.subrange(tx, tx + 512)[j] == d[tx + j]);
        }
    }
    // without skipping: the run of xs, then the marker ends the listing
    lemma_list_enc(d, 0, xs, false);
    assert(scan_header(d, tx, false) == ScanG::NoMore);
    assert(logical_next(d, tx, false, None, None, None, false) == NextOutcomeG::NoMore);
    assert(entries_list(d, tx, false) == Ok::<Seq<EntryG>, Error>(Seq::empty()));
    assert(expected_list(xs, 0) + Seq::<EntryG>::empty() =~= expected_list(xs, 0));
    // with skipping: the scan crosses the marker into the second archive
    lemma_list_enc(d, 0, xs, true);
    assert(is_zero_block(d.subrange(tx + 512, tx + 1024))) by {
        assert forall|j: int| 0 <= j < 512 implies (#[trigger] d.subrange(
            tx + 512,
            tx + 1024,
        )[j]) == 0 by {
            assert(d.subrange(tx + 512, tx + 1024)[j] == d[tx + 512 + j]);
        }
    }
    assert(scan_header(d, tx, true) == scan_header(d, tx + 512, true));
    assert(scan_header(d, tx + 512, true) == scan_header(d, lx, true));
    assert(raw_next(d, tx, true, None) == raw_next(d, lx, true, None));
    assert(logical_next(d, tx, true, None, None, None, false) == logical_next(
        d,
        lx,
        true,
        None,
        None,
        None,
        false,
    ));
    assert(entries_list(d, tx, true) == entries_list(d, lx, true));
    assert(d.subrange(lx, lx + ty) =~= enc_entries(ys)) by {
        assert forall|j: int| 0 <= j < ty implies (#[trigger] d.subrange(lx, lx + ty)[j])
            == enc_entries(ys)[j] by {
            assert(d.subrange(lx, lx + ty)[j] == d[lx + j]);
            assert(d[lx + j] == enc_archive(ys)[j]);
            assert(enc_archive(ys)[j] == enc_entries(ys)[j]);
        }
    }
    lemma_list_enc(d, lx, ys, true);
    assert forall|j: int| lx + ty <= j < d.len() implies (#[trigger] d[j]) == 0 by {
        assert(d[j] == enc_archive(ys)[j - lx]);
        assert(enc_archive(ys)[j - lx] == zero_seq(1024)[j - lx - ty]);
    }
    lemma_zeros_end(d, lx + ty, true);
    assert(expected_list(ys, lx) + Seq::<EntryG>::empty() =~= expected_list(ys, lx));
    assert(entries_list(d, lx, true) == Ok::<Seq<EntryG>, Error>(expected_list(ys, lx)));
}

} // verus!
