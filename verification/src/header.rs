//! The 512-byte header block.
//!
//! Field layout (offset + length): name 0+100, mode 100+8, uid 108+8,
//! gid 116+8, size 124+12, mtime 136+12, cksum 148+8, typeflag 156+1,
//! linkname 157+100, magic 257+6, version 263+2, uname 265+32, gname 297+32,
//! devmajor 329+8, devminor 337+8, prefix 345+155. The GNU layout overlays
//! the tail with atime 345+12, ctime 357+12, sparse descriptors 386+96
//! (four 24-byte offset/length pairs), isextended 482+1 and realsize 483+12.

use vstd::prelude::*;

use crate::error::Error;
use crate::num::{
    field, parse_numeric, parse_numeric_spec, parse_octal, parse_octal_spec,
};

verus! {

/// A whole block of NUL bytes ends the archive.
pub open spec fn is_zero_block(s: Seq<u8>) -> bool {
    forall|i: int| 0 <= i < s.len() ==> s[i] == 0
}

/// Sum of the bytes `s[lo .. hi]`.
pub open spec fn sum_bytes(s: Seq<u8>, lo: int, hi: int) -> int
    decreases hi - lo,
{
    if lo >= hi {
        0
    } else {
        sum_bytes(s, lo, hi - 1) + s[hi - 1]
    }
}

/// The checksum of a header block: the sum of all 512 bytes with the
/// checksum field itself read as eight ASCII spaces (8 * 0x20 = 256).
pub open spec fn header_sum(s: Seq<u8>) -> int {
    sum_bytes(s, 0, 148) + 256 + sum_bytes(s, 156, 512)
}

/// The stored checksum field agrees with the computed sum.
pub open spec fn checksum_ok(s: Seq<u8>) -> bool {
    parse_octal_spec(field(s, 148, 8)) == Some(header_sum(s))
}

/// How the magic and version fields classify the header.
#[derive(Clone, Copy, Debug, PartialEq, Eq, Structural)]
pub enum HeaderVariant {
    /// Pre-POSIX header: no magic.
    Old,
    /// POSIX ustar: magic "ustar\0", version "00".
    Ustar,
    /// GNU: magic "ustar ", version " \0".
    Gnu,
}

/// Magic bytes "ustar" at 257..262.
pub open spec fn magic_ustar(s: Seq<u8>) -> bool {
    s[257] == 0x75 && s[258] == 0x73 && s[259] == 0x74 && s[260] == 0x61 && s[261] == 0x72
}

pub open spec fn variant_spec(s: Seq<u8>) -> HeaderVariant {
    if magic_ustar(s) && s[262] == 0 && s[263] == 0x30 && s[264] == 0x30 {
        HeaderVariant::Ustar
    } else if magic_ustar(s) && s[262] == 0x20 && s[263] == 0x20 && s[264] == 0 {
        HeaderVariant::Gnu
    } else {
        HeaderVariant::Old
    }
}

/// The kind of entry a header describes, from its type-flag byte.
#[derive(Clone, Copy, Debug, PartialEq, Eq, Structural)]
pub enum EntryType {
    /// '0' or NUL, and '7' (contiguous) is treated the same way.
    Regular,
    /// '1'.
    Hardlink,
    /// '2'.
    Symlink,
    /// '3'.
    CharDevice,
    /// '4'.
    BlockDevice,
    /// '5'.
    Directory,
    /// '6'.
    Fifo,
    /// '7': stored contiguously, read like a regular file.
    Contiguous,
    /// 'x' or 'X': extended attributes for the next member.
    PaxLocal,
    /// 'g': global extended attributes, ignored for extraction.
    PaxGlobal,
    /// 'L': the payload names the next member.
    GnuLongName,
    /// 'K': the payload names the next member's link target.
    GnuLongLink,
    /// 'S': GNU sparse file.
    GnuSparse,
    /// Any other type flag, preserved verbatim.
    Other(u8),
}

pub open spec fn classify_spec(b: u8) -> EntryType {
    if b == 0x30 || b == 0 {
        EntryType::Regular
    } else if b == 0x31 {
        EntryType::Hardlink
    } else if b == 0x32 {
        EntryType::Symlink
    } else if b == 0x33 {
        EntryType::CharDevice
    } else if b == 0x34 {
        EntryType::BlockDevice
    } else if b == 0x35 {
        EntryType::Directory
    } else if b == 0x36 {
        EntryType::Fifo
    } else if b == 0x37 {
        EntryType::Contiguous
    } else if b == 0x78 || b == 0x58 {
        EntryType::PaxLocal
    } else if b == 0x67 {
        EntryType::PaxGlobal
    } else if b == 0x4c {
        EntryType::GnuLongName
    } else if b == 0x4b {
        EntryType::GnuLongLink
    } else if b == 0x53 {
        EntryType::GnuSparse
    } else {
        EntryType::Other(b)
    }
}

/// Classifies a type-flag byte.
pub fn classify(b: u8) -> (r: EntryType)
    ensures
        r == classify_spec(b),
{
    if b == 0x30 || b == 0 {
        EntryType::Regular
    } else if b == 0x31 {
        EntryType::Hardlink
    } else if b == 0x32 {
        EntryType::Symlink
    } else if b == 0x33 {
        EntryType::CharDevice
    } else if b == 0x34 {
        EntryType::BlockDevice
    } else if b == 0x35 {
        EntryType::Directory
    } else if b == 0x36 {
        EntryType::Fifo
    } else if b == 0x37 {
        EntryType::Contiguous
    } else if b == 0x78 || b == 0x58 {
        EntryType::PaxLocal
    } else if b == 0x67 {
        EntryType::PaxGlobal
    } else if b == 0x4c {
        EntryType::GnuLongName
    } else if b == 0x4b {
        EntryType::GnuLongLink
    } else if b == 0x53 {
        EntryType::GnuSparse
    } else {
        EntryType::Other(b)
    }
}

/// The bytes of `s` before its first NUL.
pub open spec fn trunc_nul(s: Seq<u8>) -> Seq<u8>
    decreases s.len(),
{
    if s.len() == 0 {
        Seq::empty()
    } else if s[0] == 0 {
        Seq::empty()
    } else {
        seq![s[0]] + trunc_nul(s.drop_first())
    }
}

/// The path a lone header describes: for a ustar header with a non-empty
/// prefix, prefix + '/' + name; otherwise just the name.
pub open spec fn header_path_spec(s: Seq<u8>) -> Seq<u8> {
    let name = trunc_nul(field(s, 0, 100));
    let prefix = trunc_nul(field(s, 345, 155));
    if variant_spec(s) == HeaderVariant::Ustar && prefix.len() > 0 {
        prefix + seq![0x2fu8] + name
    } else {
        name
    }
}

/// The link target named by the header itself.
pub open spec fn header_link_spec(s: Seq<u8>) -> Seq<u8> {
    trunc_nul(field(s, 157, 100))
}

/// One logical header block, held as its 512 raw bytes.
pub struct Header {
    bytes: Vec<u8>,
}

impl View for Header {
    type V = Seq<u8>;

    closed spec fn view(&self) -> Seq<u8> {
        self.bytes@
    }
}

/// Copies the bytes `data[pos .. pos + len]` into a fresh vector.
pub fn copy_range(data: &Vec<u8>, pos: usize, len: usize) -> (r: Vec<u8>)
    requires
        pos + len <= data@.len(),
    ensures
        r@ == data@.subrange(pos as int, pos + len),
{
    let total = data.len();
    let mut out: Vec<u8> = Vec::new();
    let mut i: usize = 0;
    while i < len
        invariant
            0 <= i <= len,
            pos + len <= total == data@.len(),
            out@ =~= data@.subrange(pos as int, pos + i),
        decreases len - i,
    {
        out.push(data[pos + i]);
        proof {
            assert(out@ =~= data@.subrange(pos as int, pos + i + 1));
        }
        i = i + 1;
    }
    out
}

/// Copies the field `data[pos .. pos + len]` up to its first NUL.
pub fn copy_until_nul(data: &Vec<u8>, pos: usize, len: usize) -> (r: Vec<u8>)
    requires
        pos + len <= data@.len(),
    ensures
        r@ == trunc_nul(field(data@, pos as int, len as int)),
{
    let total = data.len();
    let end = pos + len;
    let ghost whole = trunc_nul(field(data@, pos as int, len as int));
    let mut out: Vec<u8> = Vec::new();
    let mut i = pos;
    while i < end && data[i] != 0
        invariant
            pos <= i <= end <= data@.len(),
            whole == trunc_nul(field(data@, pos as int, len as int)),
            whole =~= out@ + trunc_nul(data@.subrange(i as int, end as int)),
        decreases end - i,
    {
        proof {
            assert(data@.subrange(i as int, end as int).drop_first() =~= data@.subrange(
                i + 1,
                end as int,
            ));
        }
        out.push(data[i]);
        i = i + 1;
    }
    proof {
        assert(trunc_nul(data@.subrange(i as int, end as int)) =~= Seq::<u8>::empty());
        assert(out@ =~= whole);
    }
    out
}

impl Header {
    /// A header is always exactly one block.
    pub open spec fn wf(&self) -> bool {
        self@.len() == 512
    }

    /// Copies the block at `data[pos .. pos + 512]` into a header.
    pub fn from_block(data: &Vec<u8>, pos: usize) -> (r: Header)
        requires
            pos + 512 <= data@.len(),
        ensures
            r@ == data@.subrange(pos as int, pos + 512),
            r.wf(),
    {
        Header { bytes: copy_range(data, pos, 512) }
    }

    /// The raw block.
    pub fn as_bytes(&self) -> (r: &Vec<u8>)
        ensures
            r@ == self@,
    {
        &self.bytes
    }

    /// Which dialect wrote this header.
    pub fn variant(&self) -> (r: HeaderVariant)
        requires
            self.wf(),
        ensures
            r == variant_spec(self@),
    {
        let b = &self.bytes;
        if b[257] == 0x75 && b[258] == 0x73 && b[259] == 0x74 && b[260] == 0x61 && b[261] == 0x72 {
            if b[262] == 0 && b[263] == 0x30 && b[264] == 0x30 {
                HeaderVariant::Ustar
            } else if b[262] == 0x20 && b[263] == 0x20 && b[264] == 0 {
                HeaderVariant::Gnu
            } else {
                HeaderVariant::Old
            }
        } else {
            HeaderVariant::Old
        }
    }

    /// The type-flag byte, classified.
    pub fn entry_type(&self) -> (r: EntryType)
        requires
            self.wf(),
        ensures
            r == classify_spec(self@[156]),
    {
        classify(self.bytes[156])
    }

    /// The stored checksum, an ASCII-octal field.
    pub fn cksum(&self) -> (r: Option<u64>)
        requires
            self.wf(),
        ensures
            match parse_octal_spec(field(self@, 148, 8)) {
                Some(v) => r == Some(v as u64) && 0 <= v <= u64::MAX,
                None => r is None,
            },
    {
        parse_octal(&self.bytes, 148, 8)
    }

    /// The size field, octal or GNU base-256.
    pub fn entry_size(&self) -> (r: Option<u64>)
        requires
            self.wf(),
        ensures
            match parse_numeric_spec(field(self@, 124, 12)) {
                Some(v) => r == Some(v as u64) && 0 <= v <= u64::MAX,
                None => r is None,
            },
    {
        parse_numeric(&self.bytes, 124, 12)
    }

    /// The mode field, ASCII octal.
    pub fn mode(&self) -> (r: Option<u64>)
        requires
            self.wf(),
        ensures
            match parse_octal_spec(field(self@, 100, 8)) {
                Some(v) => r == Some(v as u64) && 0 <= v <= u64::MAX,
                None => r is None,
            },
    {
        parse_octal(&self.bytes, 100, 8)
    }

    /// The owner id, octal or GNU base-256.
    pub fn uid(&self) -> (r: Option<u64>)
        requires
            self.wf(),
        ensures
            match parse_numeric_spec(field(self@, 108, 8)) {
                Some(v) => r == Some(v as u64) && 0 <= v <= u64::MAX,
                None => r is None,
            },
    {
        parse_numeric(&self.bytes, 108, 8)
    }

    /// The group id, octal or GNU base-256.
    pub fn gid(&self) -> (r: Option<u64>)
        requires
            self.wf(),
        ensures
            match parse_numeric_spec(field(self@, 116, 8)) {
                Some(v) => r == Some(v as u64) && 0 <= v <= u64::MAX,
                None => r is None,
            },
    {
        parse_numeric(&self.bytes, 116, 8)
    }

    /// The modification time, octal or GNU base-256.
    pub fn mtime(&self) -> (r: Option<u64>)
        requires
            self.wf(),
        ensures
            match parse_numeric_spec(field(self@, 136, 12)) {
                Some(v) => r == Some(v as u64) && 0 <= v <= u64::MAX,
                None => r is None,
            },
    {
        parse_numeric(&self.bytes, 136, 12)
    }

    /// The GNU real-size field of a sparse entry.
    pub fn gnu_real_size(&self) -> (r: Option<u64>)
        requires
            self.wf(),
        ensures
            match parse_numeric_spec(field(self@, 483, 12)) {
                Some(v) => r == Some(v as u64) && 0 <= v <= u64::MAX,
                None => r is None,
            },
    {
        parse_numeric(&self.bytes, 483, 12)
    }

    /// The GNU flag that announces sparse extension blocks.
    pub fn gnu_is_extended(&self) -> (r: bool)
        requires
            self.wf(),
        ensures
            r == (self@[482] == 1),
    {
        self.bytes[482] == 1
    }

    /// The path stored in the header itself, before any long-name or PAX
    /// override.
    pub fn path_bytes(&self) -> (r: Vec<u8>)
        requires
            self.wf(),
        ensures
            r@ == header_path_spec(self@),
    {
        let name = copy_until_nul(&self.bytes, 0, 100);
        if matches!(self.variant(), HeaderVariant::Ustar) {
            let prefix = copy_until_nul(&self.bytes, 345, 155);
            if prefix.len() > 0 {
                let mut out = prefix;
                out.push(0x2f);
                let mut j: usize = 0;
                let n = name.len();
                while j < n
                    invariant
                        0 <= j <= n == name@.len(),
                        out@ =~= trunc_nul(field(self@, 345, 155)) + seq![0x2fu8]
                            + name@.subrange(0, j as int),
                    decreases n - j,
                {
                    out.push(name[j]);
                    proof {
                        assert(out@.drop_last() + seq![name@[j as int]] =~= out@);
                        assert(trunc_nul(field(self@, 345, 155)) + seq![0x2fu8] + name@.subrange(
                            0,
                            j + 1,
                        ) =~= out@);
                    }
                    j = j + 1;
                }
                proof {
                    assert(name@.subrange(0, name@.len() as int) =~= name@);
                }
                out
            } else {
                name
            }
        } else {
            name
        }
    }

    /// The link target stored in the header itself.
    pub fn link_name_bytes(&self) -> (r: Vec<u8>)
        requires
            self.wf(),
        ensures
            r@ == header_link_spec(self@),
    {
        copy_until_nul(&self.bytes, 157, 100)
    }

    /// Checks the stored checksum against the sum of the block.
    ///
    /// Fails with `BadNumericField` when the checksum field is not octal,
    /// and with `ChecksumMismatch` when it disagrees with the sum.
    pub fn verify_checksum(&self) -> (r: Result<(), Error>)
        requires
            self.wf(),
        ensures
            match parse_octal_spec(field(self@, 148, 8)) {
                Some(v) => r == if v == header_sum(self@) {
                    Result::<(), Error>::Ok(())
                } else {
                    Result::<(), Error>::Err(Error::ChecksumMismatch)
                },
                None => r == Result::<(), Error>::Err(Error::BadNumericField),
            },
    {
        let stored = match self.cksum() {
            Some(v) => v,
            None => {
                return Err(Error::BadNumericField);
            },
        };
        let mut sum: u32 = 256;
        let mut i: usize = 0;
        while i < 148
            invariant
                0 <= i <= 148,
                self.wf(),
                sum == 256 + sum_bytes(self@, 0, i as int),
                sum <= 256 + 255 * i,
            decreases 148 - i,
        {
            sum = sum + self.bytes[i] as u32;
            i = i + 1;
        }
        i = 156;
        while i < 512
            invariant
                156 <= i <= 512,
                self.wf(),
                sum == 256 + sum_bytes(self@, 0, 148) + sum_bytes(self@, 156, i as int),
                sum <= 256 + 255 * 148 + 255 * i,
            decreases 512 - i,
        {
            sum = sum + self.bytes[i] as u32;
            i = i + 1;
        }
        if stored == sum as u64 {
            Ok(())
        } else {
            Err(Error::ChecksumMismatch)
        }
    }
}

/// Changing one byte outside the checksum field changes the computed sum,
/// so a block that passed the checksum can no longer pass it.
///
/// This is the checksum defense: any single-byte corruption of a header,
/// outside the eight checksum bytes themselves, makes parsing fail.
pub proof fn lemma_checksum_detects_mutation(s1: Seq<u8>, s2: Seq<u8>, i: int)
    requires
        s1.len() == 512,
        s2.len() == 512,
        0 <= i < 512,
        !(148 <= i < 156),
        s2 =~= s1.update(i, s2[i]),
        s1[i] != s2[i],
        checksum_ok(s1),
    ensures
        !checksum_ok(s2),
{
    lemma_sum_bytes_update(s1, s2, i, 0, 148);
    lemma_sum_bytes_update(s1, s2, i, 156, 512);
    assert(field(s2, 148, 8) =~= field(s1, 148, 8));
    if i < 148 {
        assert(header_sum(s2) == header_sum(s1) - s1[i] + s2[i]);
    } else {
        assert(header_sum(s2) == header_sum(s1) - s1[i] + s2[i]);
    }
    assert(header_sum(s2) != header_sum(s1));
}

/// How one changed byte moves a byte-range sum: not at all when the byte
/// lies outside the range, by exactly the difference when it lies inside.
proof fn lemma_sum_bytes_update(s1: Seq<u8>, s2: Seq<u8>, i: int, lo: int, hi: int)
    requires
        s1.len() == s2.len(),
        0 <= lo,
        hi <= s1.len(),
        0 <= i < s1.len(),
        forall|j: int| 0 <= j < s1.len() && j != i ==> s1[j] == s2[j],
    ensures
        lo <= i < hi ==> sum_bytes(s2, lo, hi) == sum_bytes(s1, lo, hi) - s1[i] + s2[i],
        !(lo <= i < hi) ==> sum_bytes(s2, lo, hi) == sum_bytes(s1, lo, hi),
    decreases hi - lo,
{
    if lo < hi {
        lemma_sum_bytes_update(s1, s2, i, lo, hi - 1);
    }
}

} // verus!
