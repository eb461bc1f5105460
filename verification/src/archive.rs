//! The archive reader: end-of-archive scanning, the raw record reader,
//! and the coalescer that splices GNU long-name, GNU long-link and PAX
//! records into logical entries, including GNU sparse bodies.
//!
//! The whole advance is first written down as a specification-level state
//! machine (`scan_header`, `raw_next`, `sparse_plan`, `logical_next`); the
//! executable iterator is verified to return exactly what the state
//! machine says, step for step.

use vstd::prelude::*;

use crate::entry::{read_avail, read_avail_vec, strip_one_nul, strip_trailing_nul, Entry, Seg};
use crate::error::Error;
use crate::header::{
    classify_spec, copy_range, header_sum, is_zero_block, variant_spec, EntryType, Header,
    HeaderVariant,
};
use crate::num::{
    field, parse_numeric_spec, parse_octal, parse_octal_spec, round_up_block,
    round_up_to_block,
};
use crate::pax::{
    gid_key, key_gid, key_size, key_uid, pax_number, pax_number_spec, size_key, uid_key,
};

verus! {

/// Position bookkeeping and the unpack configuration of an archive.
pub struct ArchiveInner {
    /// Bytes consumed so far; `entries` demands position zero.
    pub pos: u64,
    /// Permission bits cleared on extraction, umask-style.
    pub mask: u32,
    /// Apply PAX extended attributes on extraction.
    pub unpack_xattrs: bool,
    /// Keep extended permission bits on extraction.
    pub preserve_permissions: bool,
    /// Keep numeric owner and group ids on extraction.
    pub preserve_ownerships: bool,
    /// Keep modification times on extraction.
    pub preserve_mtime: bool,
    /// Replace existing files on extraction.
    pub overwrite: bool,
    /// Treat zero blocks as padding between concatenated archives.
    pub ignore_zeros: bool,
}

/// An archive held in memory: its bytes and its configuration.
pub struct Archive {
    pub inner: ArchiveInner,
    pub data: Vec<u8>,
}

impl Archive {
    /// A fresh archive over the given bytes, with the default
    /// configuration.
    pub fn new(data: Vec<u8>) -> (r: Archive)
        ensures
            r.data@ == data@,
            r.inner.pos == 0,
            r.inner.mask == 0,
            r.inner.unpack_xattrs == false,
            r.inner.preserve_permissions == false,
            r.inner.preserve_ownerships == false,
            r.inner.preserve_mtime == true,
            r.inner.overwrite == true,
            r.inner.ignore_zeros == false,
    {
        Archive {
            inner: ArchiveInner {
                pos: 0,
                mask: 0,
                unpack_xattrs: false,
                preserve_permissions: false,
                preserve_ownerships: false,
                preserve_mtime: true,
                overwrite: true,
                ignore_zeros: false,
            },
            data,
        }
    }

    /// Gives the underlying bytes back.
    pub fn into_inner(self) -> (r: Vec<u8>)
        ensures
            r@ == self.data@,
    {
        self.data
    }

    /// Sets the permission mask applied when unpacking.
    pub fn set_mask(&mut self, mask: u32)
        ensures
            final(self).inner == (ArchiveInner { mask, ..old(self).inner }),
            final(self).data@ == old(self).data@,
    {
        self.inner.mask = mask;
    }

    /// Chooses whether extended attributes are applied when unpacking.
    pub fn set_unpack_xattrs(&mut self, unpack_xattrs: bool)
        ensures
            final(self).inner == (ArchiveInner { unpack_xattrs, ..old(self).inner }),
            final(self).data@ == old(self).data@,
    {
        self.inner.unpack_xattrs = unpack_xattrs;
    }

    /// Chooses whether extended permissions are preserved when unpacking.
    pub fn set_preserve_permissions(&mut self, preserve: bool)
        ensures
            final(self).inner == (ArchiveInner { preserve_permissions: preserve, ..old(self).inner }),
            final(self).data@ == old(self).data@,
    {
        self.inner.preserve_permissions = preserve;
    }

    /// Chooses whether numeric ownership ids are preserved when unpacking.
    pub fn set_preserve_ownerships(&mut self, preserve: bool)
        ensures
            final(self).inner == (ArchiveInner { preserve_ownerships: preserve, ..old(self).inner }),
            final(self).data@ == old(self).data@,
    {
        self.inner.preserve_ownerships = preserve;
    }

    /// Chooses whether existing files are overwritten when unpacking.
    pub fn set_overwrite(&mut self, overwrite: bool)
        ensures
            final(self).inner == (ArchiveInner { overwrite, ..old(self).inner }),
            final(self).data@ == old(self).data@,
    {
        self.inner.overwrite = overwrite;
    }

    /// Chooses whether modification times are preserved when unpacking.
    pub fn set_preserve_mtime(&mut self, preserve: bool)
        ensures
            final(self).inner == (ArchiveInner { preserve_mtime: preserve, ..old(self).inner }),
            final(self).data@ == old(self).data@,
    {
        self.inner.preserve_mtime = preserve;
    }

    /// Chooses whether zero blocks are skipped instead of ending the
    /// archive, for reading concatenated archives.
    pub fn set_ignore_zeros(&mut self, ignore_zeros: bool)
        ensures
            final(self).inner == (ArchiveInner { ignore_zeros, ..old(self).inner }),
            final(self).data@ == old(self).data@,
    {
        self.inner.ignore_zeros = ignore_zeros;
    }

    /// An iterator over the entries, from the start of the archive.
    pub fn entries(&self) -> (r: Result<Entries<'_>, Error>)
        ensures
            self.inner.pos != 0 ==> r == Err::<Entries<'_>, Error>(Error::NotAtStart),
            self.inner.pos == 0 ==> (r matches Ok(it) && it.fresh(self)),
    {
        if self.inner.pos != 0 {
            return Err(Error::NotAtStart);
        }
        Ok(
            Entries {
                archive: self,
                next: 0,
                raw: false,
                done: false,
                pax_extensions: None,
            },
        )
    }

    /// An iterator over the entries for a repositionable source. On an
    /// in-memory archive every skip is already a reposition, so this is
    /// the same iterator as `entries`.
    pub fn entries_with_seek(&self) -> (r: Result<Entries<'_>, Error>)
        ensures
            self.inner.pos != 0 ==> r == Err::<Entries<'_>, Error>(Error::NotAtStart),
            self.inner.pos == 0 ==> (r matches Ok(it) && it.fresh(self)),
    {
        self.entries()
    }
}

/// What scanning for the next header block finds.
pub enum ScanG {
    /// Clean end: end of input at a block boundary, or a zero marker
    /// block while zero blocks end the archive.
    NoMore,
    /// A header block starts here.
    Found(int),
    /// The stream is shorter than the position the parser had reached, or
    /// ends inside a block.
    Fail(Error),
}

/// Scans forward from `next` for the next header block, skipping zero
/// blocks when `ignore_zeros` is on.
pub open spec fn scan_header(data: Seq<u8>, next: int, ignore_zeros: bool) -> ScanG
    decreases data.len() - next,
{
    if next < 0 || next > data.len() {
        ScanG::Fail(Error::UnexpectedEof)
    } else if next == data.len() {
        ScanG::NoMore
    } else if data.len() - next < 512 {
        ScanG::Fail(Error::TruncatedBlock)
    } else if !is_zero_block(data.subrange(next, next + 512)) {
        ScanG::Found(next)
    } else if !ignore_zeros {
        ScanG::NoMore
    } else {
        scan_header(data, next + 512, ignore_zeros)
    }
}

/// A found header lies at or after the scan start, with a whole block
/// available.
pub proof fn lemma_scan_found(data: Seq<u8>, next: int, ignore_zeros: bool)
    ensures
        scan_header(data, next, ignore_zeros) matches ScanG::Found(hp) ==> next <= hp && hp + 512
            <= data.len(),
    decreases data.len() - next,
{
    if 0 <= next && next + 512 <= data.len() {
        if is_zero_block(data.subrange(next, next + 512)) && ignore_zeros {
            lemma_scan_found(data, next + 512, ignore_zeros);
        }
    }
}

/// One raw record, before coalescing.
pub struct RawEntryG {
    pub header_pos: int,
    pub header: Seq<u8>,
    pub file_pos: int,
    pub size: int,
    pub next: int,
    pub pax_uid: Option<int>,
    pub pax_gid: Option<int>,
}

/// The outcome of one raw advance.
pub enum RawOutcomeG {
    NoMore,
    Fail(Error),
    Next(RawEntryG),
}

/// One raw advance: scan to the next header block, verify its checksum,
/// apply the PAX size fallback, and step the position past the payload.
pub open spec fn raw_next(
    data: Seq<u8>,
    next: int,
    ignore_zeros: bool,
    pax: Option<Seq<u8>>,
) -> RawOutcomeG {
    match scan_header(data, next, ignore_zeros) {
        ScanG::NoMore => RawOutcomeG::NoMore,
        ScanG::Fail(e) => RawOutcomeG::Fail(e),
        ScanG::Found(hp) => {
            let h = data.subrange(hp, hp + 512);
            match parse_octal_spec(field(h, 148, 8)) {
                None => RawOutcomeG::Fail(Error::BadNumericField),
                Some(c) => {
                    if c != header_sum(h) {
                        RawOutcomeG::Fail(Error::ChecksumMismatch)
                    } else {
                        match parse_numeric_spec(field(h, 124, 12)) {
                            None => RawOutcomeG::Fail(Error::BadNumericField),
                            Some(hsize) => {
                                let psize = match pax {
                                    Some(b) => pax_number_spec(b, key_size()),
                                    None => None,
                                };
                                let size = if hsize == 0 && psize is Some {
                                    psize->0
                                } else {
                                    hsize
                                };
                                if size + 511 > u64::MAX {
                                    RawOutcomeG::Fail(Error::SizeOverflow)
                                } else if hp + 512 + round_up_block(size) > u64::MAX {
                                    RawOutcomeG::Fail(Error::SizeOverflow)
                                } else {
                                    RawOutcomeG::Next(
                                        RawEntryG {
                                            header_pos: hp,
                                            header: h,
                                            file_pos: hp + 512,
                                            size,
                                            next: hp + 512 + round_up_block(size),
                                            pax_uid: match pax {
                                                Some(b) => pax_number_spec(b, key_uid()),
                                                None => None,
                                            },
                                            pax_gid: match pax {
                                                Some(b) => pax_number_spec(b, key_gid()),
                                                None => None,
                                            },
                                        },
                                    )
                                }
                            },
                        }
                    }
                },
            }
        },
    }
}

/// A raw record strictly advances the position and stays within 64 bits.
pub proof fn lemma_raw_next_bounds(
    data: Seq<u8>,
    next: int,
    ignore_zeros: bool,
    pax: Option<Seq<u8>>,
)
    ensures
        raw_next(data, next, ignore_zeros, pax) matches RawOutcomeG::Next(re) ==> {
            &&& next <= re.header_pos
            &&& re.file_pos == re.header_pos + 512
            &&& re.file_pos <= data.len()
            &&& re.header.len() == 512
            &&& 0 <= re.size
            &&& re.size + 511 <= u64::MAX
            &&& re.file_pos + re.size <= re.next <= u64::MAX
            &&& re.next == re.file_pos + round_up_block(re.size)
            &&& next + 512 <= re.next
        },
{
    lemma_scan_found(data, next, ignore_zeros);
    match pax {
        Some(b) => {
            match crate::pax::pax_lookup_spec(b, key_size()) {
                Some(v) => crate::num::lemma_parse_decimal_range(v),
                None => {},
            }
        },
        None => {},
    }
    match raw_next(data, next, ignore_zeros, pax) {
        RawOutcomeG::Next(re) => {
            crate::num::lemma_parse_numeric_range(field(re.header, 124, 12));
            assert(0 <= re.size);
            assert(re.size <= round_up_block(re.size));
        },
        _ => {},
    }
}

/// How far the stream reaches past a position; the measure that advances
/// of the iterator strictly shrink.
pub open spec fn stream_measure(data: Seq<u8>, next: int) -> int {
    if next <= data.len() {
        data.len() - next
    } else {
        0
    }
}

/// The 21 sparse descriptors of one extension block.
pub open spec fn ext_descs(blk: Seq<u8>) -> Seq<Seq<u8>> {
    Seq::new(21, |k: int| blk.subrange(24 * k, 24 * k + 24))
}

/// Reads the chain of sparse extension blocks that starts at `pos`,
/// appending their descriptors to `acc`.
pub open spec fn collect_ext(data: Seq<u8>, pos: int, acc: Seq<Seq<u8>>, cnt: int) -> Result<
    (Seq<Seq<u8>>, int),
    Error,
>
    decreases stream_measure(data, pos),
{
    if pos < 0 || pos >= data.len() {
        Err(Error::MissingSparseExtension)
    } else if data.len() - pos < 512 {
        Err(Error::TruncatedBlock)
    } else {
        let blk = data.subrange(pos, pos + 512);
        let acc2 = acc + ext_descs(blk);
        if blk[504] == 1 {
            collect_ext(data, pos + 512, acc2, cnt + 1)
        } else {
            Ok((acc2, cnt + 1))
        }
    }
}

/// All sparse descriptors of an entry: the four inline slots of the GNU
/// header, then the extension blocks when the header announces them.
pub open spec fn collect_descs(data: Seq<u8>, h: Seq<u8>, file_pos: int) -> Result<
    (Seq<Seq<u8>>, int),
    Error,
> {
    let inline = Seq::new(4, |k: int| h.subrange(386 + 24 * k, 386 + 24 * k + 24));
    if h[482] == 1 {
        collect_ext(data, file_pos, inline, 0)
    } else {
        Ok((inline, 0))
    }
}

/// The assembler state while folding descriptors: the logical offset
/// reached, the stored-byte budget left, the archive position of the next
/// stored run, and the segments built so far.
pub struct SpSt {
    pub cur: int,
    pub remaining: int,
    pub dpos: int,
    pub segs: Seq<Seg>,
}

/// Folds one descriptor into the assembler state, enforcing the sparse
/// invariants.
pub open spec fn sp_add(st: SpSt, size: int, d: Seq<u8>) -> Result<SpSt, Error> {
    if is_zero_block(d) {
        Ok(st)
    } else {
        match parse_octal_spec(field(d, 0, 12)) {
            None => Err(Error::BadNumericField),
            Some(off) => match parse_octal_spec(field(d, 12, 12)) {
                None => Err(Error::BadNumericField),
                Some(len) => {
                    if len != 0 && (size - st.remaining) % 512 != 0 {
                        Err(Error::SparseUnaligned)
                    } else if off < st.cur {
                        Err(Error::SparseOutOfOrder)
                    } else {
                        let segs1 = if off > st.cur {
                            st.segs.push(Seg::Hole { len: (off - st.cur) as u64 })
                        } else {
                            st.segs
                        };
                        if off + len > u64::MAX {
                            Err(Error::SparseTooLong)
                        } else if len > st.remaining {
                            Err(Error::SparseTooMuchData)
                        } else {
                            Ok(
                                SpSt {
                                    cur: off + len,
                                    remaining: st.remaining - len,
                                    dpos: st.dpos + len,
                                    segs: segs1.push(
                                        Seg::Stored { pos: st.dpos as u64, len: len as u64 },
                                    ),
                                },
                            )
                        }
                    }
                },
            },
        }
    }
}

/// Folds a whole descriptor list.
pub open spec fn sp_fold(st: SpSt, size: int, descs: Seq<Seq<u8>>) -> Result<SpSt, Error>
    decreases descs.len(),
{
    if descs.len() == 0 {
        Ok(st)
    } else {
        match sp_add(st, size, descs[0]) {
            Err(e) => Err(e),
            Ok(st2) => sp_fold(st2, size, descs.drop_first()),
        }
    }
}

/// The result of assembling a sparse body: the segments, the logical
/// (real) size, and where the next header lies.
pub struct SparseOutG {
    pub segs: Seq<Seg>,
    pub real_size: int,
    pub next2: int,
}

/// Assembles the body plan of a GNU sparse entry whose raw record was
/// read with payload budget `size` and next-header position `next`.
pub open spec fn sparse_plan(
    data: Seq<u8>,
    h: Seq<u8>,
    file_pos: int,
    size: int,
    next: int,
) -> Result<SparseOutG, Error> {
    match collect_descs(data, h, file_pos) {
        Err(e) => Err(e),
        Ok((descs, cnt)) => {
            if next + 512 * cnt > u64::MAX {
                Err(Error::SizeOverflow)
            } else {
                let body_start = file_pos + 512 * cnt;
                let st0 = SpSt { cur: 0, remaining: size, dpos: body_start, segs: Seq::empty() };
                match sp_fold(st0, size, descs) {
                    Err(e) => Err(e),
                    Ok(st) => match parse_numeric_spec(field(h, 483, 12)) {
                        None => Err(Error::BadNumericField),
                        Some(rsize) => {
                            if st.cur != rsize {
                                Err(Error::SparseRealSizeMismatch)
                            } else if st.remaining > 0 {
                                Err(Error::SparseLeftoverData)
                            } else {
                                Ok(
                                    SparseOutG {
                                        segs: st.segs,
                                        real_size: rsize,
                                        next2: next + 512 * cnt,
                                    },
                                )
                            }
                        },
                    },
                }
            }
        },
    }
}

/// One coalesced logical entry, at specification level.
pub struct EntryG {
    pub header: Seq<u8>,
    pub header_pos: int,
    pub file_pos: int,
    pub size: int,
    pub next: int,
    pub pax_uid: Option<int>,
    pub pax_gid: Option<int>,
    pub long_path: Option<Seq<u8>>,
    pub long_link: Option<Seq<u8>>,
    pub pax: Option<Seq<u8>>,
    pub segs: Seq<Seg>,
}

/// The outcome of one coalesced advance.
pub enum NextOutcomeG {
    NoMore,
    Fail(Error),
    Next(EntryG),
}

/// One coalesced advance: raw records are consumed until a real member
/// appears; 'L' and 'K' payloads and PAX buffers accumulate along the
/// way, and a GNU sparse member gets its assembled body plan.
pub open spec fn logical_next(
    data: Seq<u8>,
    next: int,
    ignore_zeros: bool,
    pax: Option<Seq<u8>>,
    lname: Option<Seq<u8>>,
    llink: Option<Seq<u8>>,
    aux_seen: bool,
) -> NextOutcomeG
    decreases stream_measure(data, next),
    via logical_next_decreases
{
    match raw_next(data, next, ignore_zeros, pax) {
        RawOutcomeG::Fail(e) => NextOutcomeG::Fail(e),
        RawOutcomeG::NoMore => {
            if aux_seen {
                NextOutcomeG::Fail(Error::DanglingAuxiliary)
            } else {
                NextOutcomeG::NoMore
            }
        },
        RawOutcomeG::Next(re) => {
            let recognized = variant_spec(re.header) != HeaderVariant::Old;
            let t = classify_spec(re.header[156]);
            if recognized && t == EntryType::GnuLongName {
                if lname is Some {
                    NextOutcomeG::Fail(Error::DuplicateLongName)
                } else {
                    logical_next(
                        data,
                        re.next,
                        ignore_zeros,
                        pax,
                        Some(strip_one_nul(read_avail(data, re.file_pos, re.size))),
                        llink,
                        true,
                    )
                }
            } else if recognized && t == EntryType::GnuLongLink {
                if llink is Some {
                    NextOutcomeG::Fail(Error::DuplicateLongLink)
                } else {
                    logical_next(
                        data,
                        re.next,
                        ignore_zeros,
                        pax,
                        lname,
                        Some(strip_one_nul(read_avail(data, re.file_pos, re.size))),
                        true,
                    )
                }
            } else if recognized && t == EntryType::PaxLocal {
                if pax is Some {
                    NextOutcomeG::Fail(Error::DuplicatePaxExtensions)
                } else {
                    logical_next(
                        data,
                        re.next,
                        ignore_zeros,
                        Some(read_avail(data, re.file_pos, re.size)),
                        lname,
                        llink,
                        true,
                    )
                }
            } else {
                finalize_outcome(data, re, lname, llink, pax)
            }
        },
    }
}

/// What a real member's raw record becomes once the accumulated names and
/// PAX buffer are attached: a plain body plan, or the assembled sparse
/// plan for a GNU sparse member.
pub open spec fn finalize_outcome(
    data: Seq<u8>,
    re: RawEntryG,
    lname: Option<Seq<u8>>,
    llink: Option<Seq<u8>>,
    pax: Option<Seq<u8>>,
) -> NextOutcomeG {
    let t = classify_spec(re.header[156]);
    if t == EntryType::GnuSparse {
        if variant_spec(re.header) != HeaderVariant::Gnu {
            NextOutcomeG::Fail(Error::SparseNotGnu)
        } else {
            match sparse_plan(data, re.header, re.file_pos, re.size, re.next) {
                Err(e) => NextOutcomeG::Fail(e),
                Ok(sp) => NextOutcomeG::Next(
                    EntryG {
                        header: re.header,
                        header_pos: re.header_pos,
                        file_pos: re.file_pos,
                        size: sp.real_size,
                        next: sp.next2,
                        pax_uid: re.pax_uid,
                        pax_gid: re.pax_gid,
                        long_path: lname,
                        long_link: llink,
                        pax,
                        segs: sp.segs,
                    },
                ),
            }
        }
    } else {
        NextOutcomeG::Next(
            EntryG {
                header: re.header,
                header_pos: re.header_pos,
                file_pos: re.file_pos,
                size: re.size,
                next: re.next,
                pax_uid: re.pax_uid,
                pax_gid: re.pax_gid,
                long_path: lname,
                long_link: llink,
                pax,
                segs: seq![Seg::Stored { pos: re.file_pos as u64, len: re.size as u64 }],
            },
        )
    }
}

#[via_fn]
proof fn logical_next_decreases(
    data: Seq<u8>,
    next: int,
    ignore_zeros: bool,
    pax: Option<Seq<u8>>,
    lname: Option<Seq<u8>>,
    llink: Option<Seq<u8>>,
    aux_seen: bool,
) {
    lemma_raw_next_bounds(data, next, ignore_zeros, pax);
}

/// The views of a list of descriptor buffers.
pub open spec fn descs_view(ds: Seq<Vec<u8>>) -> Seq<Seq<u8>> {
    ds.map_values(|v: Vec<u8>| v@)
}

/// The view of an optional byte vector.
pub open spec fn opt_view(o: Option<Vec<u8>>) -> Option<Seq<u8>> {
    match o {
        Some(v) => Some(v@),
        None => None,
    }
}

/// The widening of an optional 64-bit value.
pub open spec fn opt_int(o: Option<u64>) -> Option<int> {
    match o {
        Some(v) => Some(v as int),
        None => None,
    }
}

/// The executable entry agrees with the specification-level entry, and
/// carries the archive's unpack configuration.
pub open spec fn entry_matches(en: Entry, eg: EntryG, cfg: ArchiveInner) -> bool {
    &&& en.header@ == eg.header
    &&& en.header.wf()
    &&& en.header_pos as int == eg.header_pos
    &&& en.file_pos as int == eg.file_pos
    &&& en.size as int == eg.size
    &&& opt_view(en.long_pathname) == eg.long_path
    &&& opt_view(en.long_linkname) == eg.long_link
    &&& opt_view(en.pax_extensions) == eg.pax
    &&& opt_int(en.pax_uid) == eg.pax_uid
    &&& opt_int(en.pax_gid) == eg.pax_gid
    &&& en.segments@ == eg.segs
    &&& en.mask == cfg.mask
    &&& en.unpack_xattrs == cfg.unpack_xattrs
    &&& en.preserve_permissions == cfg.preserve_permissions
    &&& en.preserve_ownerships == cfg.preserve_ownerships
    &&& en.preserve_mtime == cfg.preserve_mtime
    &&& en.overwrite == cfg.overwrite
}

/// The executable entry agrees with a raw record: no coalesced names, no
/// PAX buffer, a single stored run as its body.
pub open spec fn raw_entry_matches(en: Entry, re: RawEntryG, cfg: ArchiveInner) -> bool {
    &&& en.header@ == re.header
    &&& en.header.wf()
    &&& en.header_pos as int == re.header_pos
    &&& en.file_pos as int == re.file_pos
    &&& en.size as int == re.size
    &&& en.long_pathname is None
    &&& en.long_linkname is None
    &&& en.pax_extensions is None
    &&& opt_int(en.pax_uid) == re.pax_uid
    &&& opt_int(en.pax_gid) == re.pax_gid
    &&& en.segments@ == seq![Seg::Stored { pos: re.file_pos as u64, len: re.size as u64 }]
    &&& en.mask == cfg.mask
    &&& en.unpack_xattrs == cfg.unpack_xattrs
    &&& en.preserve_permissions == cfg.preserve_permissions
    &&& en.preserve_ownerships == cfg.preserve_ownerships
    &&& en.preserve_mtime == cfg.preserve_mtime
    &&& en.overwrite == cfg.overwrite
}

/// The iterator over an archive's entries.
///
/// The iterator owns the forward cursor; an entry's body never moves it.
/// Whether or how much of a body the caller reads, the next advance
/// starts from the position the iterator computed from the header alone,
/// which is what makes skipping entries safe.
pub struct Entries<'a> {
    pub archive: &'a Archive,
    /// Absolute position of the next header block.
    pub next: u64,
    /// Yield physical records instead of coalescing auxiliary ones.
    pub raw: bool,
    /// Terminal: end of archive was reached or an advance failed.
    pub done: bool,
    /// PAX records read from an 'x' record and not yet attached.
    pub pax_extensions: Option<Vec<u8>>,
}

impl<'a> Entries<'a> {
    /// A freshly created iterator for `ar`.
    pub open spec fn fresh(&self, ar: &Archive) -> bool {
        &&& self.archive == ar
        &&& self.next == 0
        &&& self.raw == false
        &&& self.done == false
        &&& self.pax_extensions is None
    }

    /// The PAX buffer as a sequence.
    pub open spec fn pax_view(&self) -> Option<Seq<u8>> {
        opt_view(self.pax_extensions)
    }

    /// Switches raw mode on or off, keeping the position.
    pub fn raw(self, raw: bool) -> (r: Entries<'a>)
        ensures
            r == (Entries { raw, ..self }),
    {
        Entries { raw, ..self }
    }

    /// Whether the iterator has reached its terminal state.
    pub fn is_terminated(&self) -> (r: bool)
        ensures
            r == self.done,
    {
        self.done
    }

    /// Scans to the next header block, as `scan_header` describes:
    /// returns its position and leaves the cursor just past it.
    fn scan_block(&mut self) -> (r: Result<Option<u64>, Error>)
        ensures
            final(self).archive == old(self).archive,
            final(self).raw == old(self).raw,
            final(self).done == old(self).done,
            final(self).pax_extensions == old(self).pax_extensions,
            match scan_header(
                old(self).archive.data@,
                old(self).next as int,
                old(self).archive.inner.ignore_zeros,
            ) {
                ScanG::NoMore => r matches Ok(o) && o is None,
                ScanG::Fail(e) => r == Err::<Option<u64>, Error>(e),
                ScanG::Found(hp) => (r matches Ok(o) && o matches Some(p) && p as int == hp
                    && final(self).next as int == hp + 512),
            },
    {
        let ar: &Archive = self.archive;
        let dlen: usize = ar.data.len();
        let iz = ar.inner.ignore_zeros;
        let ghost d = ar.data@;
        let ghost scan0 = scan_header(d, old(self).next as int, iz);
        loop
            invariant
                self.archive == old(self).archive,
                self.raw == old(self).raw,
                self.done == old(self).done,
                self.pax_extensions == old(self).pax_extensions,
                ar == self.archive,
                d == self.archive.data@,
                dlen == d.len(),
                iz == self.archive.inner.ignore_zeros,
                scan0 == scan_header(d, old(self).next as int, iz),
                scan0 == scan_header(d, self.next as int, iz),
            decreases stream_measure(d, self.next as int),
        {
            if self.next > dlen as u64 {
                return Err(Error::UnexpectedEof);
            }
            if self.next == dlen as u64 {
                return Ok(None);
            }
            if dlen as u64 - self.next < 512 {
                return Err(Error::TruncatedBlock);
            }
            let start = self.next as usize;
            let mut k: usize = 0;
            while k < 512 && ar.data[start + k] == 0
                invariant
                    0 <= k <= 512,
                    start + 512 <= dlen == d.len(),
                    d == ar.data@,
                    forall|j: int| 0 <= j < k ==> #[trigger] d[start + j] == 0,
                decreases 512 - k,
            {
                k = k + 1;
            }
            if k < 512 {
                proof {
                    assert(d.subrange(start as int, start + 512)[k as int] == d[start + k]);
                    assert(!is_zero_block(d.subrange(start as int, start + 512)));
                }
                let hp = self.next;
                self.next = self.next + 512;
                return Ok(Some(hp));
            }
            proof {
                let blk = d.subrange(start as int, start + 512);
                assert forall|j: int| 0 <= j < blk.len() implies blk[j] == 0 by {
                    assert(blk[j] == d[start + j]);
                }
                assert(is_zero_block(blk));
            }
            if !iz {
                return Ok(None);
            }
            self.next = self.next + 512;
        }
    }

    /// One raw advance, exactly as `raw_next` describes it: the header at
    /// the scan position is checked and read, the PAX size fallback
    /// applied, and the cursor stepped past the payload blocks.
    fn next_entry_raw(&mut self) -> (r: Result<Option<Entry>, Error>)
        ensures
            final(self).archive == old(self).archive,
            final(self).raw == old(self).raw,
            final(self).done == old(self).done,
            final(self).pax_extensions == old(self).pax_extensions,
            match raw_next(
                old(self).archive.data@,
                old(self).next as int,
                old(self).archive.inner.ignore_zeros,
                old(self).pax_view(),
            ) {
                RawOutcomeG::NoMore => r matches Ok(o) && o is None,
                RawOutcomeG::Fail(e) => r == Err::<Option<Entry>, Error>(e),
                RawOutcomeG::Next(re) => (r matches Ok(o) && o matches Some(en)
                    && raw_entry_matches(en, re, old(self).archive.inner) && final(self).next as int
                    == re.next),
            },
    {
        let ghost d = self.archive.data@;
        let ghost whole = raw_next(
            d,
            self.next as int,
            self.archive.inner.ignore_zeros,
            self.pax_view(),
        );
        let hp = match self.scan_block() {
            Err(e) => {
                return Err(e);
            },
            Ok(None) => {
                return Ok(None);
            },
            Ok(Some(p)) => p,
        };
        proof {
            lemma_scan_found(d, old(self).next as int, self.archive.inner.ignore_zeros);
        }
        let ar: &Archive = self.archive;
        let dl = ar.data.len();
        proof {
            assert(hp as int + 512 <= d.len());
            assert(d.len() == dl as int);
        }
        let header = Header::from_block(&ar.data, hp as usize);
        let ghost h = d.subrange(hp as int, hp as int + 512);
        proof {
            assert(header@ == h);
        }
        match header.verify_checksum() {
            Err(e) => {
                return Err(e);
            },
            Ok(()) => {},
        }
        let pax_size: Option<u64>;
        let pax_uid: Option<u64>;
        let pax_gid: Option<u64>;
        match &self.pax_extensions {
            Some(b) => {
                let ks = size_key();
                let ku = uid_key();
                let kg = gid_key();
                pax_size = pax_number(b, &ks);
                pax_uid = pax_number(b, &ku);
                pax_gid = pax_number(b, &kg);
            },
            None => {
                pax_size = None;
                pax_uid = None;
                pax_gid = None;
            },
        }
        let hsize = match header.entry_size() {
            Some(v) => v,
            None => {
                return Err(Error::BadNumericField);
            },
        };
        let size = if hsize == 0 {
            match pax_size {
                Some(s) => s,
                None => 0,
            }
        } else {
            hsize
        };
        let rounded = match round_up_to_block(size) {
            Some(v) => v,
            None => {
                return Err(Error::SizeOverflow);
            },
        };
        let file_pos = self.next;
        if rounded > u64::MAX - file_pos {
            return Err(Error::SizeOverflow);
        }
        let next_after = file_pos + rounded;
        self.next = next_after;
        let segments: Vec<Seg> = vec![Seg::Stored { pos: file_pos, len: size }];
        proof {
            assert(segments@ =~= seq![Seg::Stored { pos: file_pos, len: size }]);
        }
        let en = Entry {
            header,
            header_pos: hp,
            file_pos,
            size,
            pax_uid,
            pax_gid,
            long_pathname: None,
            long_linkname: None,
            pax_extensions: None,
            segments,
            mask: ar.inner.mask,
            unpack_xattrs: ar.inner.unpack_xattrs,
            preserve_permissions: ar.inner.preserve_permissions,
            preserve_ownerships: ar.inner.preserve_ownerships,
            preserve_mtime: ar.inner.preserve_mtime,
            overwrite: ar.inner.overwrite,
        };
        Ok(Some(en))
    }

    /// Assembles the body plan of a GNU sparse member, as `sparse_plan`
    /// describes: the inline descriptors, then any extension blocks, each
    /// of which moves the next-header position one block further.
    fn parse_sparse(&mut self, en: &mut Entry) -> (r: Result<(), Error>)
        requires
            old(en).wf(),
            old(en).file_pos as int <= old(self).archive.data@.len(),
            old(self).next as int == old(en).file_pos + round_up_block(old(en).size as int),
        ensures
            final(self).archive == old(self).archive,
            final(self).raw == old(self).raw,
            final(self).done == old(self).done,
            final(self).pax_extensions == old(self).pax_extensions,
            final(en).header == old(en).header,
            final(en).header_pos == old(en).header_pos,
            final(en).file_pos == old(en).file_pos,
            final(en).pax_uid == old(en).pax_uid,
            final(en).pax_gid == old(en).pax_gid,
            final(en).long_pathname == old(en).long_pathname,
            final(en).long_linkname == old(en).long_linkname,
            final(en).pax_extensions == old(en).pax_extensions,
            final(en).mask == old(en).mask,
            final(en).unpack_xattrs == old(en).unpack_xattrs,
            final(en).preserve_permissions == old(en).preserve_permissions,
            final(en).preserve_ownerships == old(en).preserve_ownerships,
            final(en).preserve_mtime == old(en).preserve_mtime,
            final(en).overwrite == old(en).overwrite,
            match sparse_plan(
                old(self).archive.data@,
                old(en).header@,
                old(en).file_pos as int,
                old(en).size as int,
                old(self).next as int,
            ) {
                Err(e) => r == Err::<(), Error>(e),
                Ok(sp) => (r is Ok && final(en).segments@ == sp.segs && final(en).size as int
                    == sp.real_size && final(self).next as int == sp.next2),
            },
    {
        let ar: &Archive = self.archive;
        let dlen: usize = ar.data.len();
        let ghost d = ar.data@;
        let ghost h = en.header@;
        let ghost plan0 = sparse_plan(d, h, en.file_pos as int, en.size as int, self.next as int);
        let hb = en.header.as_bytes();
        let mut descs: Vec<Vec<u8>> = Vec::new();
        descs.push(copy_range(hb, 386, 24));
        descs.push(copy_range(hb, 410, 24));
        descs.push(copy_range(hb, 434, 24));
        descs.push(copy_range(hb, 458, 24));
        proof {
            assert(descs_view(descs@) =~~= Seq::new(
                4,
                |k: int| h.subrange(386 + 24 * k, 386 + 24 * k + 24),
            ));
        }
        let mut n_ext: u64 = 0;
        let mut pos: u64 = en.file_pos;
        if en.header.gnu_is_extended() {
            let mut more = true;
            while more
                invariant
                    ar == self.archive,
                    self.archive == old(self).archive,
                    self.raw == old(self).raw,
                    self.done == old(self).done,
                    self.next == old(self).next,
                    self.pax_extensions == old(self).pax_extensions,
                    *en == *old(en),
                    d == ar.data@,
                    dlen == d.len(),
                    h == en.header@,
                    pos as int == en.file_pos + 512 * n_ext,
                    pos as int <= d.len(),
                    forall|k: int|
                        0 <= k < descs@.len() ==> (#[trigger] descs@[k])@.len() == 24,
                    collect_descs(d, h, en.file_pos as int) == (if more {
                        collect_ext(d, pos as int, descs_view(descs@), n_ext as int)
                    } else {
                        Ok::<_, Error>((descs_view(descs@), n_ext as int))
                    }),
                decreases (if more {
                    stream_measure(d, pos as int) + 1
                } else {
                    0
                }),
            {
                if pos >= dlen as u64 {
                    return Err(Error::MissingSparseExtension);
                }
                if dlen as u64 - pos < 512 {
                    return Err(Error::TruncatedBlock);
                }
                let base = pos as usize;
                let ghost blk = d.subrange(pos as int, pos as int + 512);
                let ghost before = descs_view(descs@);
                let mut k: usize = 0;
                while k < 21
                    invariant
                        0 <= k <= 21,
                        ar == self.archive,
                        d == ar.data@,
                        dlen == d.len(),
                        base + 512 <= dlen,
                        blk == d.subrange(base as int, base as int + 512),
                        before.len() + k == descs@.len(),
                        forall|j: int|
                            0 <= j < descs@.len() ==> (#[trigger] descs@[j])@.len() == 24,
                        descs_view(descs@) =~~= before + ext_descs(blk).subrange(0, k as int),
                    decreases 21 - k,
                {
                    let dd = copy_range(&ar.data, base + 24 * k, 24);
                    let ghost dv0 = descs@;
                    proof {
                        assert(dd@ =~= blk.subrange(24 * k as int, 24 * k as int + 24));
                        assert(ext_descs(blk)[k as int] == blk.subrange(
                            24 * k as int,
                            24 * k as int + 24,
                        ));
                    }
                    descs.push(dd);
                    proof {
                        assert(descs@ == dv0.push(dd));
                        assert(descs_view(dv0.push(dd)) =~~= descs_view(dv0).push(dd@));
                        assert(ext_descs(blk).subrange(0, k + 1) =~~= ext_descs(blk).subrange(
                            0,
                            k as int,
                        ).push(ext_descs(blk)[k as int]));
                        assert(descs_view(descs@) =~~= before + ext_descs(blk).subrange(
                            0,
                            k + 1,
                        ));
                    }
                    k = k + 1;
                }
                proof {
                    assert(ext_descs(blk).subrange(0, 21) =~~= ext_descs(blk));
                    assert(descs_view(descs@) =~~= before + ext_descs(blk));
                }
                more = ar.data[base + 504] == 1;
                proof {
                    assert(blk[504] == d[base as int + 504]);
                }
                n_ext = n_ext + 1;
                pos = pos + 512;
            }
        }
        proof {
            assert(collect_descs(d, h, en.file_pos as int) == Ok::<_, Error>((
                descs_view(descs@),
                n_ext as int,
            )));
        }
        let ext_bytes: u64 = 512 * n_ext;
        if ext_bytes > u64::MAX - self.next {
            return Err(Error::SizeOverflow);
        }
        let next2 = self.next + ext_bytes;
        let body_start = en.file_pos + ext_bytes;
        proof {
            assert(en.size <= round_up_block(en.size as int));
            assert(body_start as int + en.size as int <= next2 as int);
        }
        let size = en.size;
        let mut cur: u64 = 0;
        let mut remaining: u64 = size;
        let mut dpos: u64 = body_start;
        let mut segs: Vec<Seg> = Vec::new();
        let nd = descs.len();
        let ghost all = descs_view(descs@);
        let ghost st0 = SpSt {
            cur: 0,
            remaining: size as int,
            dpos: body_start as int,
            segs: Seq::empty(),
        };
        let ghost fold_whole = sp_fold(st0, size as int, all);
        proof {
            assert(all.subrange(0, nd as int) =~~= all);
            assert(all.subrange(nd as int, nd as int) =~~= Seq::<Seq<u8>>::empty());
        }
        let mut i: usize = 0;
        while i < nd
            invariant
                0 <= i <= nd == descs@.len(),
                ar == self.archive,
                self.archive == old(self).archive,
                self.raw == old(self).raw,
                self.done == old(self).done,
                self.next == old(self).next,
                self.pax_extensions == old(self).pax_extensions,
                *en == *old(en),
                d == ar.data@,
                h == en.header@,
                size == en.size,
                plan0 == sparse_plan(d, h, en.file_pos as int, size as int, self.next as int),
                collect_descs(d, h, en.file_pos as int) == Ok::<_, Error>((all, n_ext as int)),
                self.next + 512 * n_ext <= u64::MAX,
                next2 == self.next + 512 * (n_ext as int),
                body_start == en.file_pos + 512 * (n_ext as int),
                st0 == (SpSt {
                    cur: 0,
                    remaining: size as int,
                    dpos: body_start as int,
                    segs: Seq::<Seg>::empty(),
                }),
                fold_whole == sp_fold(st0, size as int, all),
                all == descs_view(descs@),
                forall|j: int| 0 <= j < descs@.len() ==> (#[trigger] descs@[j])@.len() == 24,
                remaining <= size,
                dpos as int == body_start + (size - remaining),
                body_start + size <= u64::MAX,
                fold_whole == sp_fold(
                    SpSt {
                        cur: cur as int,
                        remaining: remaining as int,
                        dpos: dpos as int,
                        segs: segs@,
                    },
                    size as int,
                    all.subrange(i as int, nd as int),
                ),
            decreases nd - i,
        {
            let ghost st_now = SpSt {
                cur: cur as int,
                remaining: remaining as int,
                dpos: dpos as int,
                segs: segs@,
            };
            let ghost rest = all.subrange(i as int, nd as int);
            proof {
                assert(rest[0] == all[i as int]);
                assert(rest.drop_first() =~~= all.subrange(i + 1, nd as int));
                assert(all[i as int] == descs@[i as int]@);
            }
            let dsc = &descs[i];
            let mut z: usize = 0;
            while z < 24 && dsc[z] == 0
                invariant
                    0 <= z <= 24,
                    dsc@.len() == 24,
                    forall|j: int| 0 <= j < z ==> #[trigger] dsc@[j] == 0,
                decreases 24 - z,
            {
                z = z + 1;
            }
            if z == 24 {
                proof {
                    assert(is_zero_block(dsc@));
                }
            } else {
                proof {
                    assert(!is_zero_block(dsc@));
                }
                let off = match parse_octal(dsc, 0, 12) {
                    Some(v) => v,
                    None => {
                        return Err(Error::BadNumericField);
                    },
                };
                let len = match parse_octal(dsc, 12, 12) {
                    Some(v) => v,
                    None => {
                        return Err(Error::BadNumericField);
                    },
                };
                if len != 0 && (size - remaining) % 512 != 0 {
                    return Err(Error::SparseUnaligned);
                }
                if off < cur {
                    return Err(Error::SparseOutOfOrder);
                }
                if off > cur {
                    segs.push(Seg::Hole { len: off - cur });
                }
                if len > u64::MAX - off {
                    return Err(Error::SparseTooLong);
                }
                if len > remaining {
                    return Err(Error::SparseTooMuchData);
                }
                cur = off + len;
                remaining = remaining - len;
                segs.push(Seg::Stored { pos: dpos, len });
                dpos = dpos + len;
            }
            i = i + 1;
        }
        let rsize = match en.header.gnu_real_size() {
            Some(v) => v,
            None => {
                return Err(Error::BadNumericField);
            },
        };
        if cur != rsize {
            return Err(Error::SparseRealSizeMismatch);
        }
        if remaining > 0 {
            return Err(Error::SparseLeftoverData);
        }
        en.size = cur;
        en.segments = segs;
        self.next = next2;
        Ok(())
    }

    /// Reads one raw record and sorts it: an auxiliary record is folded
    /// into the accumulators, a real member is handed back.
    fn coalesce_step(
        &mut self,
        lname: &mut Option<Vec<u8>>,
        llink: &mut Option<Vec<u8>>,
    ) -> (r: Result<Step, Error>)
        ensures
            final(self).archive == old(self).archive,
            final(self).raw == old(self).raw,
            final(self).done == old(self).done,
            match raw_next(
                old(self).archive.data@,
                old(self).next as int,
                old(self).archive.inner.ignore_zeros,
                old(self).pax_view(),
            ) {
                RawOutcomeG::NoMore => r == Ok::<Step, Error>(Step::End) && *final(lname) == *old(
                    lname,
                ) && *final(llink) == *old(llink) && final(self).pax_extensions == old(
                    self,
                ).pax_extensions,
                RawOutcomeG::Fail(e) => r == Err::<Step, Error>(e),
                RawOutcomeG::Next(re) => {
                    let d = old(self).archive.data@;
                    let recognized = variant_spec(re.header) != HeaderVariant::Old;
                    let t = classify_spec(re.header[156]);
                    if recognized && t == EntryType::GnuLongName {
                        if *old(lname) is Some {
                            r == Err::<Step, Error>(Error::DuplicateLongName)
                        } else {
                            r == Ok::<Step, Error>(Step::Aux) && opt_view(*final(lname)) == Some(
                                strip_one_nul(read_avail(d, re.file_pos, re.size)),
                            ) && *final(llink) == *old(llink) && final(self).pax_extensions == old(
                                self,
                            ).pax_extensions && final(self).next as int == re.next
                        }
                    } else if recognized && t == EntryType::GnuLongLink {
                        if *old(llink) is Some {
                            r == Err::<Step, Error>(Error::DuplicateLongLink)
                        } else {
                            r == Ok::<Step, Error>(Step::Aux) && opt_view(*final(llink)) == Some(
                                strip_one_nul(read_avail(d, re.file_pos, re.size)),
                            ) && *final(lname) == *old(lname) && final(self).pax_extensions == old(
                                self,
                            ).pax_extensions && final(self).next as int == re.next
                        }
                    } else if recognized && t == EntryType::PaxLocal {
                        if old(self).pax_extensions is Some {
                            r == Err::<Step, Error>(Error::DuplicatePaxExtensions)
                        } else {
                            r == Ok::<Step, Error>(Step::Aux) && final(self).pax_view() == Some(
                                read_avail(d, re.file_pos, re.size),
                            ) && *final(lname) == *old(lname) && *final(llink) == *old(llink)
                                && final(self).next as int == re.next
                        }
                    } else {
                        (r matches Ok(st) && st matches Step::Real(en) && raw_entry_matches(
                            en,
                            re,
                            old(self).archive.inner,
                        ) && final(self).next as int == re.next && *final(lname) == *old(lname)
                            && *final(llink) == *old(llink) && final(self).pax_extensions == old(
                            self,
                        ).pax_extensions)
                    }
                },
            },
    {
        let step = self.next_entry_raw();
        match step {
            Err(e) => Err(e),
            Ok(None) => Ok(Step::End),
            Ok(Some(en)) => {
                let var = en.header.variant();
                let recognized = !matches!(var, HeaderVariant::Old);
                let t = en.header.entry_type();
                if recognized && matches!(t, EntryType::GnuLongName) {
                    if lname.is_some() {
                        return Err(Error::DuplicateLongName);
                    }
                    let mut buf = read_avail_vec(&self.archive.data, en.file_pos, en.size);
                    strip_trailing_nul(&mut buf);
                    *lname = Some(buf);
                    Ok(Step::Aux)
                } else if recognized && matches!(t, EntryType::GnuLongLink) {
                    if llink.is_some() {
                        return Err(Error::DuplicateLongLink);
                    }
                    let mut buf = read_avail_vec(&self.archive.data, en.file_pos, en.size);
                    strip_trailing_nul(&mut buf);
                    *llink = Some(buf);
                    Ok(Step::Aux)
                } else if recognized && matches!(t, EntryType::PaxLocal) {
                    if self.pax_extensions.is_some() {
                        return Err(Error::DuplicatePaxExtensions);
                    }
                    let buf = read_avail_vec(&self.archive.data, en.file_pos, en.size);
                    self.pax_extensions = Some(buf);
                    Ok(Step::Aux)
                } else {
                    Ok(Step::Real(en))
                }
            },
        }
    }

    /// One logical advance, as `logical_next` describes it: auxiliary
    /// records accumulate until a real member appears and carries them.
    ///
    /// The advance starts from the position computed when the previous
    /// entry's header was parsed; how much of that entry's body the
    /// caller read is irrelevant, so skipping bodies is always safe.
    pub fn next_entry(&mut self) -> (r: Result<Option<Entry>, Error>)
        ensures
            final(self).archive == old(self).archive,
            final(self).raw == old(self).raw,
            old(self).done ==> r == Ok::<Option<Entry>, Error>(None) && *final(self) == *old(self),
            !old(self).done && old(self).raw ==> match raw_next(
                old(self).archive.data@,
                old(self).next as int,
                old(self).archive.inner.ignore_zeros,
                old(self).pax_view(),
            ) {
                RawOutcomeG::NoMore => r == Ok::<Option<Entry>, Error>(None) && final(self).done,
                RawOutcomeG::Fail(e) => r == Err::<Option<Entry>, Error>(e) && final(self).done,
                RawOutcomeG::Next(re) => (r matches Ok(o) && o matches Some(en)
                    && raw_entry_matches(en, re, old(self).archive.inner)
                    && final(self).next as int == re.next && !final(self).done
                    && final(self).pax_extensions == old(self).pax_extensions),
            },
            !old(self).done && !old(self).raw ==> match logical_next(
                old(self).archive.data@,
                old(self).next as int,
                old(self).archive.inner.ignore_zeros,
                old(self).pax_view(),
                None,
                None,
                false,
            ) {
                NextOutcomeG::NoMore => r == Ok::<Option<Entry>, Error>(None) && final(self).done,
                NextOutcomeG::Fail(e) => r == Err::<Option<Entry>, Error>(e) && final(self).done,
                NextOutcomeG::Next(eg) => (r matches Ok(o) && o matches Some(en) && entry_matches(
                    en,
                    eg,
                    old(self).archive.inner,
                ) && final(self).next as int == eg.next && !final(self).done
                    && final(self).pax_extensions is None),
            },
    {
        if self.done {
            return Ok(None);
        }
        let ghost d = self.archive.data@;
        let iz = self.archive.inner.ignore_zeros;
        if self.raw {
            let res = self.next_entry_raw();
            match res {
                Ok(Some(en)) => {
                    return Ok(Some(en));
                },
                Ok(None) => {
                    self.done = true;
                    return Ok(None);
                },
                Err(e) => {
                    self.done = true;
                    return Err(e);
                },
            }
        }
        let ghost whole = logical_next(d, self.next as int, iz, self.pax_view(), None, None, false);
        let mut gnu_longname: Option<Vec<u8>> = None;
        let mut gnu_longlink: Option<Vec<u8>> = None;
        let mut aux_seen = false;
        let mut found: Option<Entry> = None;
        let ghost mut g_re = RawEntryG {
            header_pos: 0,
            header: Seq::empty(),
            file_pos: 0,
            size: 0,
            next: 0,
            pax_uid: None,
            pax_gid: None,
        };
        loop
            invariant_except_break
                found is None,
                whole == logical_next(
                    d,
                    self.next as int,
                    iz,
                    self.pax_view(),
                    opt_view(gnu_longname),
                    opt_view(gnu_longlink),
                    aux_seen,
                ),
            invariant
                !self.done,
                !self.raw,
                !old(self).done,
                !old(self).raw,
                self.archive == old(self).archive,
                self.raw == old(self).raw,
                d == self.archive.data@,
                iz == self.archive.inner.ignore_zeros,
                whole == logical_next(
                    d,
                    old(self).next as int,
                    iz,
                    old(self).pax_view(),
                    None,
                    None,
                    false,
                ),
            ensures
                !self.done,
                !self.raw,
                self.archive == old(self).archive,
                d == self.archive.data@,
                found matches Some(en) && raw_entry_matches(en, g_re, self.archive.inner),
                self.next as int == g_re.next,
                g_re.file_pos <= d.len(),
                g_re.next == g_re.file_pos + round_up_block(g_re.size),
                whole == finalize_outcome(
                    d,
                    g_re,
                    opt_view(gnu_longname),
                    opt_view(gnu_longlink),
                    self.pax_view(),
                ),
            decreases stream_measure(d, self.next as int),
        {
            let ghost state_before = *self;
            proof {
                lemma_raw_next_bounds(d, self.next as int, iz, self.pax_view());
            }
            let step = self.coalesce_step(&mut gnu_longname, &mut gnu_longlink);
            match step {
                Err(e) => {
                    self.done = true;
                    return Err(e);
                },
                Ok(Step::End) => {
                    self.done = true;
                    if aux_seen {
                        return Err(Error::DanglingAuxiliary);
                    }
                    return Ok(None);
                },
                Ok(Step::Aux) => {
                    aux_seen = true;
                },
                Ok(Step::Real(en)) => {
                    proof {
                        g_re = match raw_next(
                            d,
                            state_before.next as int,
                            iz,
                            state_before.pax_view(),
                        ) {
                            RawOutcomeG::Next(re) => re,
                            _ => g_re,
                        };
                    }
                    found = Some(en);
                    break;
                },
            }
        }
        let mut en = match found {
            Some(en) => en,
            None => {
                proof {
                    assert(false);
                }
                return Ok(None);
            },
        };
        en.long_pathname = gnu_longname;
        en.long_linkname = gnu_longlink;
        en.pax_extensions = self.pax_extensions.take();
        let t = en.header.entry_type();
        if matches!(t, EntryType::GnuSparse) {
            if !matches!(en.header.variant(), HeaderVariant::Gnu) {
                self.done = true;
                return Err(Error::SparseNotGnu);
            }
            match self.parse_sparse(&mut en) {
                Err(e) => {
                    self.done = true;
                    return Err(e);
                },
                Ok(()) => {},
            }
        }
        Ok(Some(en))
    }
}

/// What one coalescing step produced.
enum Step {
    /// An auxiliary record was folded into the accumulators.
    Aux,
    /// A real member.
    Real(Entry),
    /// End of the archive.
    End,
}

} // verus!
