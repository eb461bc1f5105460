//! Logical entries and their body plans.
//!
//! An entry's body is a plan of segments: runs of bytes stored in the
//! archive, and runs of zero bytes that were never stored (sparse holes).
//! A plain entry has a single stored run; a GNU sparse entry alternates
//! stored runs and holes.

use vstd::prelude::*;

use crate::header::{
    classify_spec, copy_range, header_link_spec, header_path_spec, EntryType, Header,
};
use crate::num::{field, parse_numeric, parse_numeric_spec, parse_octal, parse_octal_spec};
use crate::pax::{
    key_linkpath, key_path, linkpath_key, path_key, pax_lookup_spec, pax_value,
};

verus! {

/// One segment of an entry body: bytes stored in the archive at an
/// absolute position, or a run of zeros that the archive never stored.
#[derive(Clone, Copy, Debug, PartialEq, Eq, Structural)]
pub enum Seg {
    /// `len` bytes stored at archive offset `pos`.
    Stored { pos: u64, len: u64 },
    /// `len` zero bytes.
    Hole { len: u64 },
}

/// `len` zero bytes.
pub open spec fn zero_seq(len: int) -> Seq<u8> {
    if len <= 0 {
        Seq::empty()
    } else {
        Seq::new(len as nat, |i: int| 0u8)
    }
}

/// The bytes available when reading `len` bytes at `pos`: the read stops
/// early at the end of the buffer, as a reader at the end of its input
/// does.
pub open spec fn read_avail(d: Seq<u8>, pos: int, len: int) -> Seq<u8> {
    if pos < 0 || len < 0 || pos > d.len() {
        Seq::empty()
    } else if pos + len <= d.len() {
        d.subrange(pos, pos + len)
    } else {
        d.subrange(pos, d.len() as int)
    }
}

/// The bytes one segment contributes to the body.
pub open spec fn seg_bytes(d: Seq<u8>, s: Seg) -> Seq<u8> {
    match s {
        Seg::Stored { pos, len } => read_avail(d, pos as int, len as int),
        Seg::Hole { len } => zero_seq(len as int),
    }
}

/// The bytes of a whole body plan, in order.
pub open spec fn plan_bytes(d: Seq<u8>, segs: Seq<Seg>) -> Seq<u8>
    decreases segs.len(),
{
    if segs.len() == 0 {
        Seq::empty()
    } else {
        seg_bytes(d, segs[0]) + plan_bytes(d, segs.drop_first())
    }
}

/// Appending a segment appends its bytes.
pub proof fn lemma_plan_bytes_push(d: Seq<u8>, segs: Seq<Seg>, s: Seg)
    ensures
        plan_bytes(d, segs.push(s)) == plan_bytes(d, segs) + seg_bytes(d, s),
    decreases segs.len(),
{
    if segs.len() == 0 {
        assert(segs.push(s)[0] == s);
        assert(segs.push(s).drop_first() =~= Seq::<Seg>::empty());
        assert(plan_bytes(d, segs.push(s)) == seg_bytes(d, s) + plan_bytes(
            d,
            Seq::<Seg>::empty(),
        ));
        assert(seg_bytes(d, s) + Seq::<u8>::empty() =~= seg_bytes(d, s));
        assert(plan_bytes(d, segs) + seg_bytes(d, s) =~= seg_bytes(d, s));
    } else {
        assert(segs.push(s)[0] == segs[0]);
        assert(segs.push(s).drop_first() =~= segs.drop_first().push(s));
        lemma_plan_bytes_push(d, segs.drop_first(), s);
        assert(plan_bytes(d, segs.push(s)) =~= plan_bytes(d, segs) + seg_bytes(d, s));
    }
}

/// A body plan splits at any segment boundary.
pub proof fn lemma_plan_bytes_split(d: Seq<u8>, segs: Seq<Seg>, i: int)
    requires
        0 <= i <= segs.len(),
    ensures
        plan_bytes(d, segs) == plan_bytes(d, segs.subrange(0, i)) + plan_bytes(
            d,
            segs.subrange(i, segs.len() as int),
        ),
    decreases i,
{
    if i == 0 {
        assert(segs.subrange(0, 0) =~= Seq::<Seg>::empty());
        assert(segs.subrange(0, segs.len() as int) =~= segs);
    } else {
        lemma_plan_bytes_split(d, segs, i - 1);
        assert(segs.subrange(0, i) =~= segs.subrange(0, i - 1).push(segs[i - 1]));
        lemma_plan_bytes_push(d, segs.subrange(0, i - 1), segs[i - 1]);
        let tail_long = segs.subrange(i - 1, segs.len() as int);
        let tail_short = segs.subrange(i, segs.len() as int);
        assert(tail_long[0] == segs[i - 1]);
        assert(tail_long.drop_first() =~= tail_short);
        assert(plan_bytes(d, tail_long) == seg_bytes(d, segs[i - 1]) + plan_bytes(d, tail_short));
        assert(plan_bytes(d, segs) =~= plan_bytes(d, segs.subrange(0, i)) + plan_bytes(
            d,
            tail_short,
        ));
    }
}

/// Strips at most one trailing NUL, as the GNU long-name payloads carry.
pub open spec fn strip_one_nul(s: Seq<u8>) -> Seq<u8> {
    if s.len() > 0 && s.last() == 0 {
        s.drop_last()
    } else {
        s
    }
}

/// Removes at most one trailing NUL byte.
pub fn strip_trailing_nul(v: &mut Vec<u8>)
    ensures
        final(v)@ == strip_one_nul(old(v)@),
{
    let n = v.len();
    if n > 0 {
        let last = v[n - 1];
        if last == 0 {
            v.pop();
            proof {
                assert(v@ =~= strip_one_nul(old(v)@));
            }
        }
    }
}

/// Copies the available bytes of `data[pos .. pos + len]`, stopping early
/// at the end of the buffer.
pub fn read_avail_vec(data: &Vec<u8>, pos: u64, len: u64) -> (r: Vec<u8>)
    ensures
        r@ == read_avail(data@, pos as int, len as int),
{
    let dlen = data.len();
    if pos > dlen as u64 {
        let out: Vec<u8> = Vec::new();
        return out;
    }
    let avail = dlen as u64 - pos;
    let take = if len < avail {
        len
    } else {
        avail
    };
    let r = copy_range(data, pos as usize, take as usize);
    proof {
        assert(r@ =~= read_avail(data@, pos as int, len as int));
    }
    r
}

/// One logical archive member: its header block, its position, its
/// effective size, the auxiliary records that were coalesced into it, its
/// body plan, and the unpack configuration captured from the archive.
pub struct Entry {
    pub header: Header,
    pub header_pos: u64,
    pub file_pos: u64,
    pub size: u64,
    pub pax_uid: Option<u64>,
    pub pax_gid: Option<u64>,
    pub long_pathname: Option<Vec<u8>>,
    pub long_linkname: Option<Vec<u8>>,
    pub pax_extensions: Option<Vec<u8>>,
    pub segments: Vec<Seg>,
    pub mask: u32,
    pub unpack_xattrs: bool,
    pub preserve_permissions: bool,
    pub preserve_ownerships: bool,
    pub preserve_mtime: bool,
    pub overwrite: bool,
}

impl Entry {
    pub open spec fn wf(&self) -> bool {
        self.header.wf()
    }

    /// The long-name payload wins, then a PAX `path` record, then the
    /// name stored in the header itself.
    pub open spec fn path_spec(&self) -> Seq<u8> {
        match self.long_pathname {
            Some(p) => p@,
            None => match self.pax_extensions {
                Some(b) => match pax_lookup_spec(b@, key_path()) {
                    Some(v) => v,
                    None => header_path_spec(self.header@),
                },
                None => header_path_spec(self.header@),
            },
        }
    }

    /// The long-link payload wins, then a PAX `linkpath` record, then the
    /// link name stored in the header itself.
    pub open spec fn link_spec(&self) -> Seq<u8> {
        match self.long_linkname {
            Some(p) => p@,
            None => match self.pax_extensions {
                Some(b) => match pax_lookup_spec(b@, key_linkpath()) {
                    Some(v) => v,
                    None => header_link_spec(self.header@),
                },
                None => header_link_spec(self.header@),
            },
        }
    }

    /// The owner id: the PAX override when one was given, else the header
    /// field.
    pub open spec fn uid_spec(&self) -> Option<int> {
        match self.pax_uid {
            Some(u) => Some(u as int),
            None => parse_numeric_spec(field(self.header@, 108, 8)),
        }
    }

    /// The group id: the PAX override when one was given, else the header
    /// field.
    pub open spec fn gid_spec(&self) -> Option<int> {
        match self.pax_gid {
            Some(g) => Some(g as int),
            None => parse_numeric_spec(field(self.header@, 116, 8)),
        }
    }

    /// The bytes the body delivers from this archive buffer.
    pub open spec fn body_spec(&self, d: Seq<u8>) -> Seq<u8> {
        plan_bytes(d, self.segments@)
    }

    /// The entry's path.
    pub fn path_bytes(&self) -> (r: Vec<u8>)
        requires
            self.wf(),
        ensures
            r@ == self.path_spec(),
    {
        match &self.long_pathname {
            Some(p) => copy_range(p, 0, p.len()),
            None => {
                match &self.pax_extensions {
                    Some(b) => {
                        let key = path_key();
                        match pax_value(b, &key) {
                            Some(v) => v,
                            None => self.header.path_bytes(),
                        }
                    },
                    None => self.header.path_bytes(),
                }
            },
        }
    }

    /// The entry's link target.
    pub fn link_name_bytes(&self) -> (r: Vec<u8>)
        requires
            self.wf(),
        ensures
            r@ == self.link_spec(),
    {
        match &self.long_linkname {
            Some(p) => copy_range(p, 0, p.len()),
            None => {
                match &self.pax_extensions {
                    Some(b) => {
                        let key = linkpath_key();
                        match pax_value(b, &key) {
                            Some(v) => v,
                            None => self.header.link_name_bytes(),
                        }
                    },
                    None => self.header.link_name_bytes(),
                }
            },
        }
    }

    /// The kind of member this entry is.
    pub fn entry_type(&self) -> (r: EntryType)
        requires
            self.wf(),
        ensures
            r == classify_spec(self.header@[156]),
    {
        self.header.entry_type()
    }

    /// The owner id, PAX override included.
    pub fn uid(&self) -> (r: Option<u64>)
        requires
            self.wf(),
        ensures
            match self.uid_spec() {
                Some(v) => r == Some(v as u64) && 0 <= v <= u64::MAX,
                None => r is None,
            },
    {
        match self.pax_uid {
            Some(u) => Some(u),
            None => self.header.uid(),
        }
    }

    /// The group id, PAX override included.
    pub fn gid(&self) -> (r: Option<u64>)
        requires
            self.wf(),
        ensures
            match self.gid_spec() {
                Some(v) => r == Some(v as u64) && 0 <= v <= u64::MAX,
                None => r is None,
            },
    {
        match self.pax_gid {
            Some(g) => Some(g),
            None => self.header.gid(),
        }
    }

    /// The file mode field.
    pub fn mode(&self) -> (r: Option<u64>)
        requires
            self.wf(),
        ensures
            match parse_octal_spec(field(self.header@, 100, 8)) {
                Some(v) => r == Some(v as u64) && 0 <= v <= u64::MAX,
                None => r is None,
            },
    {
        self.header.mode()
    }

    /// The modification time field.
    pub fn mtime(&self) -> (r: Option<u64>)
        requires
            self.wf(),
        ensures
            match parse_numeric_spec(field(self.header@, 136, 12)) {
                Some(v) => r == Some(v as u64) && 0 <= v <= u64::MAX,
                None => r is None,
            },
    {
        self.header.mtime()
    }

    /// Materializes the whole body: stored runs come from the archive
    /// buffer, holes come out as zeros.
    pub fn body(&self, data: &Vec<u8>) -> (r: Vec<u8>)
        requires
            self.body_spec(data@).len() <= usize::MAX,
        ensures
            r@ == self.body_spec(data@),
    {
        let ghost d = data@;
        let ghost all = self.segments@;
        let n = self.segments.len();
        let mut out: Vec<u8> = Vec::new();
        let mut i: usize = 0;
        while i < n
            invariant
                0 <= i <= n == all.len(),
                all == self.segments@,
                d == data@,
                plan_bytes(d, all).len() <= usize::MAX,
                out@ =~= plan_bytes(d, all.subrange(0, i as int)),
            decreases n - i,
        {
            proof {
                lemma_plan_bytes_split(d, all, i as int);
                lemma_plan_bytes_split(d, all, i + 1);
                assert(all.subrange(0, i + 1) =~= all.subrange(0, i as int).push(all[i as int]));
                lemma_plan_bytes_push(d, all.subrange(0, i as int), all[i as int]);
                let tail = all.subrange(i as int, n as int);
                assert(tail[0] == all[i as int]);
                assert(tail.drop_first() =~= all.subrange(i + 1, n as int));
                assert(plan_bytes(d, tail) == seg_bytes(d, all[i as int]) + plan_bytes(
                    d,
                    all.subrange(i + 1, n as int),
                ));
                assert(out@.len() + seg_bytes(d, all[i as int]).len() <= plan_bytes(d, all).len());
            }
            let seg = self.segments[i];
            match seg {
                Seg::Stored { pos, len } => {
                    let mut part = read_avail_vec(data, pos, len);
                    let m = part.len();
                    let mut j: usize = 0;
                    while j < m
                        invariant
                            0 <= j <= m == part@.len(),
                            out@ =~= plan_bytes(d, all.subrange(0, i as int)) + part@.subrange(
                                0,
                                j as int,
                            ),
                            out@.len() + (m - j) <= usize::MAX,
                        decreases m - j,
                    {
                        out.push(part[j]);
                        proof {
                            assert(out@ =~= plan_bytes(d, all.subrange(0, i as int))
                                + part@.subrange(0, j + 1));
                        }
                        j = j + 1;
                    }
                    proof {
                        assert(part@.subrange(0, m as int) =~= part@);
                        assert(out@ =~= plan_bytes(d, all.subrange(0, i + 1)));
                    }
                },
                Seg::Hole { len } => {
                    proof {
                        assert(seg_bytes(d, all[i as int]).len() == len);
                    }
                    let m = len as usize;
                    let mut j: usize = 0;
                    while j < m
                        invariant
                            0 <= j <= m,
                            m == seg_bytes(d, all[i as int]).len(),
                            all[i as int] == seg,
                            seg matches Seg::Hole { len } && m == len,
                            out@ =~= plan_bytes(d, all.subrange(0, i as int)) + zero_seq(j as int),
                            out@.len() + (m - j) <= usize::MAX,
                        decreases m - j,
                    {
                        out.push(0);
                        proof {
                            assert(zero_seq(j as int).push(0u8) =~= zero_seq(j + 1));
                            assert(out@ =~= plan_bytes(d, all.subrange(0, i as int)) + zero_seq(
                                j + 1,
                            ));
                        }
                        j = j + 1;
                    }
                    proof {
                        assert(zero_seq(m as int) =~= seg_bytes(d, all[i as int]));
                        assert(out@ =~= plan_bytes(d, all.subrange(0, i + 1)));
                    }
                },
            }
            i = i + 1;
        }
        proof {
            assert(all.subrange(0, n as int) =~= all);
        }
        out
    }
}

} // verus!
