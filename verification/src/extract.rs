//! The safe-extraction planner.
//!
//! Extraction is split in two: this module computes, from the archive
//! alone, a plan of write operations under destination-relative component
//! paths; executing the plan against a real filesystem is left to the
//! caller. Planning is where the traversal defense lives: an absolute
//! root or a drive-letter prefix is discarded, an entry whose path holds
//! a '..' component is skipped silently, and a NUL byte in a path is a
//! fatal error, so no planned path can leave the destination root.
//!
//! What the plan cannot decide is decided by the executor against the
//! live filesystem: refusing to write through a symlinked ancestor, and
//! the overwrite check against existing files.

use vstd::prelude::*;

use crate::archive::{
    entry_matches, logical_next, opt_int, opt_view, Archive, ArchiveInner, EntryG, NextOutcomeG,
    RawOutcomeG,
};
use crate::entry::{Entry, Seg};
use crate::error::Error;
use crate::header::{
    classify_spec, copy_range, header_link_spec, header_path_spec, EntryType,
};
use crate::num::{field, parse_numeric_spec, parse_octal, parse_octal_spec};
use crate::pax::{find_byte, key_linkpath, key_path, pax_lookup_spec};

verus! {

/// The views of a list of path components.
pub open spec fn parts_view(ps: Seq<Vec<u8>>) -> Seq<Seq<u8>> {
    ps.map_values(|v: Vec<u8>| v@)
}

/// "." as a component.
pub open spec fn dot() -> Seq<u8> {
    seq![0x2eu8]
}

/// ".." as a component.
pub open spec fn dotdot() -> Seq<u8> {
    seq![0x2eu8, 0x2eu8]
}

/// A component worth keeping: non-empty and not ".".
pub open spec fn keep_component(c: Seq<u8>) -> bool {
    c.len() > 0 && c != dot()
}

/// A drive-letter component, "C:"-like.
pub open spec fn is_drive(c: Seq<u8>) -> bool {
    c.len() == 2 && (0x41 <= c[0] <= 0x5a || 0x61 <= c[0] <= 0x7a) && c[1] == 0x3a
}

/// The kept components of `p` from position `i` on, split at '/'.
pub open spec fn split_from(p: Seq<u8>, i: int) -> Seq<Seq<u8>>
    decreases p.len() - i,
    via split_from_decreases
{
    if i < 0 || i >= p.len() {
        Seq::empty()
    } else {
        let j = find_byte(p, 0x2f, i);
        let c = p.subrange(i, j);
        let rest = if j < p.len() {
            split_from(p, j + 1)
        } else {
            Seq::empty()
        };
        if keep_component(c) {
            seq![c] + rest
        } else {
            rest
        }
    }
}

/// Where the first occurrence of a byte lies: at or after the scan
/// start, at the byte itself when one exists, past bytes that are not it.
pub proof fn lemma_find_byte(s: Seq<u8>, b: u8, i: int)
    requires
        0 <= i <= s.len(),
    ensures
        i <= find_byte(s, b, i) <= s.len(),
        find_byte(s, b, i) < s.len() ==> s[find_byte(s, b, i)] == b,
        forall|k: int| i <= k < find_byte(s, b, i) ==> s[k] != b,
    decreases s.len() - i,
{
    if i < s.len() && s[i] != b {
        lemma_find_byte(s, b, i + 1);
    }
}

#[via_fn]
proof fn split_from_decreases(p: Seq<u8>, i: int) {
    if 0 <= i < p.len() {
        lemma_find_byte(p, 0x2f, i);
    }
}

/// What sanitizing a path yields.
pub enum SanitizeG {
    /// Safe destination-relative components.
    Clean(Seq<Seq<u8>>),
    /// The entry must be skipped silently: a '..' component, or nothing
    /// left after sanitizing.
    Reject,
    /// A NUL byte: a fatal error.
    NulByte,
}

/// The split components of `p` with a leading drive letter discarded.
pub open spec fn sanitized_components(p: Seq<u8>) -> Seq<Seq<u8>> {
    let cs = split_from(p, 0);
    if cs.len() > 0 && is_drive(cs[0]) {
        cs.drop_first()
    } else {
        cs
    }
}

/// Some component is "..".
pub open spec fn has_dotdot(cs: Seq<Seq<u8>>) -> bool {
    exists|i: int| 0 <= i < cs.len() && #[trigger] cs[i] == dotdot()
}

/// Splits an entry path into components, discards empty and "."
/// components and a leading absolute root or drive letter, rejects '..'
/// outright, and treats an embedded NUL as fatal.
pub open spec fn sanitize_spec(p: Seq<u8>) -> SanitizeG {
    if p.contains(0) {
        SanitizeG::NulByte
    } else {
        let cs2 = sanitized_components(p);
        if has_dotdot(cs2) {
            SanitizeG::Reject
        } else if cs2.len() == 0 {
            SanitizeG::Reject
        } else {
            SanitizeG::Clean(cs2)
        }
    }
}

/// A component that can never escape the directory it is joined to:
/// non-empty, no path separator, not "." or "..", no NUL.
pub open spec fn component_ok(c: Seq<u8>) -> bool {
    &&& c.len() > 0
    &&& c != dot()
    &&& c != dotdot()
    &&& !c.contains(0x2f)
    &&& !c.contains(0)
}

/// A whole destination-relative path that stays beneath its root.
pub open spec fn safe_path(cs: Seq<Seq<u8>>) -> bool {
    cs.len() > 0 && forall|i: int| 0 <= i < cs.len() ==> component_ok(#[trigger] cs[i])
}

proof fn lemma_split_from_ok(p: Seq<u8>, i: int)
    requires
        0 <= i <= p.len(),
        !p.contains(0),
    ensures
        forall|k: int|
            0 <= k < split_from(p, i).len() ==> {
                let c = #[trigger] split_from(p, i)[k];
                keep_component(c) && !c.contains(0x2f) && !c.contains(0)
            },
    decreases p.len() - i,
{
    if i < p.len() {
        let j = find_byte(p, 0x2f, i);
        lemma_find_byte(p, 0x2f, i);
        let c = p.subrange(i, j);
        assert(!c.contains(0x2f)) by {
            if c.contains(0x2f) {
                let w = choose|w: int| 0 <= w < c.len() && c[w] == 0x2f;
                assert(p[i + w] == 0x2f);
            }
        }
        assert(!c.contains(0)) by {
            if c.contains(0) {
                let w = choose|w: int| 0 <= w < c.len() && c[w] == 0;
                assert(p.contains(0)) by {
                    assert(p[i + w] == 0);
                }
            }
        }
        if j < p.len() {
            lemma_split_from_ok(p, j + 1);
        }
        if keep_component(c) {
            assert forall|k: int| 0 <= k < split_from(p, i).len() implies {
                let cc = #[trigger] split_from(p, i)[k];
                keep_component(cc) && !cc.contains(0x2f) && !cc.contains(0)
            } by {
                if k == 0 {
                    assert(split_from(p, i)[0] == c);
                } else {
                    if j < p.len() {
                        assert(split_from(p, i)[k] == split_from(p, j + 1)[k - 1]);
                    }
                }
            }
        } else {
            assert forall|k: int| 0 <= k < split_from(p, i).len() implies {
                let cc = #[trigger] split_from(p, i)[k];
                keep_component(cc) && !cc.contains(0x2f) && !cc.contains(0)
            } by {
                if j < p.len() {
                    assert(split_from(p, i)[k] == split_from(p, j + 1)[k]);
                }
            }
        }
    }
}

/// The traversal defense: whatever the entry path was, a sanitized path
/// is a non-empty run of components each of which stays strictly inside
/// its directory, so joining it beneath the destination root can never
/// name anything outside that root.
pub proof fn lemma_sanitize_safe(p: Seq<u8>)
    ensures
        sanitize_spec(p) matches SanitizeG::Clean(cs) ==> safe_path(cs),
{
    if !p.contains(0) {
        lemma_split_from_ok(p, 0);
        let cs = split_from(p, 0);
        match sanitize_spec(p) {
            SanitizeG::Clean(out) => {
                assert(out == sanitized_components(p));
                assert(!has_dotdot(sanitized_components(p)));
                assert forall|i: int| 0 <= i < out.len() implies component_ok(
                    #[trigger] out[i],
                ) by {
                    let c = sanitized_components(p)[i];
                    if cs.len() > 0 && is_drive(cs[0]) {
                        assert(c == cs[i + 1]);
                        assert(0 <= i + 1 < split_from(p, 0).len());
                        assert(split_from(p, 0)[i + 1] == c);
                    } else {
                        assert(c == cs[i]);
                        assert(split_from(p, 0)[i] == c);
                    }
                    assert(keep_component(c) && !c.contains(0x2f) && !c.contains(0));
                    assert(c != dotdot()) by {
                        if c == dotdot() {
                            assert(0 <= i < sanitized_components(p).len()
                                && sanitized_components(p)[i] == dotdot());
                            assert(has_dotdot(sanitized_components(p)));
                        }
                    }
                }
            },
            _ => {},
        }
    }
}

/// The sanitized components of an entry path.
pub enum SanitizedPath {
    /// Safe destination-relative components.
    Clean(Vec<Vec<u8>>),
    /// Skip this entry silently.
    Reject,
    /// Fatal: the path holds a NUL byte.
    NulByte,
}

/// The executable result agrees with the specification-level one.
pub open spec fn sanitize_matches(r: SanitizedPath, g: SanitizeG) -> bool {
    match r {
        SanitizedPath::Clean(v) => g matches SanitizeG::Clean(s) && parts_view(v@) == s,
        SanitizedPath::Reject => g is Reject,
        SanitizedPath::NulByte => g is NulByte,
    }
}

/// Sanitizes one entry path, as `sanitize_spec` describes.
pub fn sanitize_path(path: &Vec<u8>) -> (r: SanitizedPath)
    ensures
        sanitize_matches(r, sanitize_spec(path@)),
{
    let n = path.len();
    let ghost p = path@;
    let mut i: usize = 0;
    while i < n && path[i] != 0
        invariant
            0 <= i <= n == p.len(),
            p == path@,
            forall|j: int| 0 <= j < i ==> p[j] != 0,
        decreases n - i,
    {
        i = i + 1;
    }
    if i < n {
        proof {
            assert(p.contains(0)) by {
                assert(p[i as int] == 0);
            }
        }
        return SanitizedPath::NulByte;
    }
    proof {
        assert(!p.contains(0)) by {
            if p.contains(0) {
                let w = choose|w: int| 0 <= w < p.len() && p[w] == 0;
                assert(p[w] != 0);
            }
        }
    }
    let mut parts: Vec<Vec<u8>> = Vec::new();
    let mut pos: usize = 0;
    while pos < n
        invariant
            0 <= pos <= n,
            n == p.len(),
            p == path@,
            split_from(p, 0) =~~= parts_view(parts@) + split_from(p, pos as int),
        ensures
            pos == n,
            n == p.len(),
            p == path@,
            split_from(p, 0) =~~= parts_view(parts@) + split_from(p, pos as int),
        decreases n + 1 - pos,
    {
        let mut j = pos;
        while j < n && path[j] != 0x2f
            invariant
                pos <= j <= n == p.len(),
                p == path@,
                find_byte(p, 0x2f, pos as int) == find_byte(p, 0x2f, j as int),
            decreases n - j,
        {
            j = j + 1;
        }
        proof {
            assert(find_byte(p, 0x2f, pos as int) == j);
        }
        let clen = j - pos;
        let ghost c = p.subrange(pos as int, j as int);
        let ghost before = parts_view(parts@);
        if clen > 0 && !(clen == 1 && path[pos] == 0x2e) {
            let comp = copy_range(path, pos, clen);
            let ghost pv0 = parts@;
            parts.push(comp);
            proof {
                assert(dot().len() == 1 && dot()[0] == 0x2e);
                assert(c.len() == clen && (clen > 0 ==> c[0] == p[pos as int]));
                assert(c != dot());
                assert(keep_component(c));
                assert(parts_view(pv0.push(comp)) =~~= parts_view(pv0).push(comp@));
                if j < n {
                    assert(split_from(p, pos as int) == seq![c] + split_from(p, j + 1));
                    assert(split_from(p, 0) =~~= parts_view(parts@) + split_from(p, j + 1));
                } else {
                    assert(split_from(p, pos as int) =~~= seq![c]);
                    assert(split_from(p, j + 1) =~~= Seq::<Seq<u8>>::empty());
                    assert(split_from(p, 0) =~~= parts_view(parts@) + split_from(p, j + 1));
                }
            }
        } else {
            proof {
                assert(dot().len() == 1 && dot()[0] == 0x2e);
                assert(!keep_component(c)) by {
                    if clen == 1 && p[pos as int] == 0x2e {
                        assert(c =~= dot());
                    }
                }
                if j < n {
                    assert(split_from(p, pos as int) == split_from(p, j + 1));
                } else {
                    assert(split_from(p, pos as int) =~~= Seq::<Seq<u8>>::empty());
                    assert(split_from(p, j + 1) =~~= Seq::<Seq<u8>>::empty());
                }
                assert(split_from(p, 0) =~~= parts_view(parts@) + split_from(p, j + 1));
            }
        }
        if j < n {
            pos = j + 1;
        } else {
            proof {
                assert(split_from(p, j + 1) =~~= Seq::<Seq<u8>>::empty());
                assert(split_from(p, n as int) =~~= Seq::<Seq<u8>>::empty());
            }
            pos = n;
            proof {
                assert(split_from(p, 0) =~~= parts_view(parts@) + split_from(p, pos as int));
            }
            break;
        }
    }
    proof {
        assert(split_from(p, pos as int) =~~= Seq::<Seq<u8>>::empty());
        assert(parts_view(parts@) =~~= split_from(p, 0));
    }
    let ghost cs = split_from(p, 0);
    if parts.len() > 0 {
        let first = &parts[0];
        let b0 = if first.len() == 2 {
            first[0]
        } else {
            0
        };
        let drive = first.len() == 2 && ((0x41 <= b0 && b0 <= 0x5a) || (0x61 <= b0 && b0 <= 0x7a))
            && first[1] == 0x3a;
        proof {
            assert(parts@[0]@ == cs[0]);
            assert(drive == is_drive(cs[0]));
        }
        if drive {
            let ghost pv0 = parts@;
            parts.remove(0);
            proof {
                assert(parts@ =~= pv0.drop_first());
                assert(parts_view(pv0.drop_first()) =~~= parts_view(pv0).drop_first());
                assert(parts_view(parts@) =~~= cs.drop_first());
            }
        }
    }
    proof {
        assert(parts_view(parts@) =~~= sanitized_components(p));
    }
    let m = parts.len();
    let mut k: usize = 0;
    while k < m
        invariant
            0 <= k <= m == parts@.len(),
            p == path@,
            !p.contains(0),
            parts_view(parts@) == sanitized_components(p),
            forall|w: int| 0 <= w < k ==> (#[trigger] parts_view(parts@)[w]) != dotdot(),
        decreases m - k,
    {
        let comp = &parts[k];
        if comp.len() == 2 && comp[0] == 0x2e && comp[1] == 0x2e {
            proof {
                assert(parts_view(parts@)[k as int] == comp@);
                assert(comp@ =~= dotdot());
                assert(sanitized_components(p)[k as int] == dotdot());
                assert(has_dotdot(sanitized_components(p)));
                assert(sanitize_spec(p) is Reject);
            }
            return SanitizedPath::Reject;
        }
        proof {
            assert(parts_view(parts@)[k as int] == comp@);
            assert(comp@ != dotdot()) by {
                if comp@ == dotdot() {
                    assert(comp@.len() == 2 && comp@[0] == 0x2e && comp@[1] == 0x2e);
                }
            }
        }
        k = k + 1;
    }
    if parts.len() == 0 {
        return SanitizedPath::Reject;
    }
    proof {
        assert(!has_dotdot(sanitized_components(p))) by {
            if has_dotdot(sanitized_components(p)) {
                let w = choose|i: int|
                    0 <= i < sanitized_components(p).len() && #[trigger] sanitized_components(
                        p,
                    )[i] == dotdot();
                assert(parts_view(parts@)[w] != dotdot());
            }
        }
    }
    SanitizedPath::Clean(parts)
}

/// Strips permission bits through the configured mask, umask-style.
pub fn apply_mask(mode: u32, mask: u32) -> (r: u32)
    ensures
        r == mode & !mask,
{
    mode & !mask
}

/// One planned write: a node kind to create at a destination-relative
/// component path, with the attributes the configuration asked to apply.
pub enum OpKindG {
    Dir,
    File(Seq<Seg>),
    Symlink(Seq<u8>),
    Hardlink(Seq<u8>),
    CharDevice(int, int),
    BlockDevice(int, int),
    Fifo,
}

/// A planned write at specification level.
pub struct OpG {
    pub path: Seq<Seq<u8>>,
    pub kind: OpKindG,
    pub mode: int,
    pub uid: Option<int>,
    pub gid: Option<int>,
    pub mtime: Option<int>,
    pub overwrite: bool,
}

/// What planning one entry yields.
pub enum PlanG {
    /// A write to perform.
    Op(OpG),
    /// Nothing to create: a rejected path, or a metadata-only entry.
    Skipped,
    /// Planning fails, and extraction with it.
    Failed(Error),
}

/// The specification-level image of an executable entry.
pub open spec fn entry_g_of(e: Entry) -> EntryG {
    EntryG {
        header: e.header@,
        header_pos: e.header_pos as int,
        file_pos: e.file_pos as int,
        size: e.size as int,
        next: 0,
        pax_uid: opt_int(e.pax_uid),
        pax_gid: opt_int(e.pax_gid),
        long_path: opt_view(e.long_pathname),
        long_link: opt_view(e.long_linkname),
        pax: opt_view(e.pax_extensions),
        segs: e.segments@,
    }
}

/// The configuration that matters to a plan: position and zero-block
/// handling play no part in it.
pub open spec fn unpack_cfg(c: ArchiveInner) -> ArchiveInner {
    ArchiveInner { pos: 0, ignore_zeros: false, ..c }
}

/// The path of a specification-level entry: the long-name payload, then
/// a PAX `path` record, then the header name.
pub open spec fn path_of_g(eg: EntryG) -> Seq<u8> {
    match eg.long_path {
        Some(p) => p,
        None => match eg.pax {
            Some(b) => match pax_lookup_spec(b, key_path()) {
                Some(v) => v,
                None => header_path_spec(eg.header),
            },
            None => header_path_spec(eg.header),
        },
    }
}

/// The link target of a specification-level entry.
pub open spec fn link_of_g(eg: EntryG) -> Seq<u8> {
    match eg.long_link {
        Some(p) => p,
        None => match eg.pax {
            Some(b) => match pax_lookup_spec(b, key_linkpath()) {
                Some(v) => v,
                None => header_link_spec(eg.header),
            },
            None => header_link_spec(eg.header),
        },
    }
}

/// The owner id of a specification-level entry.
pub open spec fn uid_of_g(eg: EntryG) -> Option<int> {
    match eg.pax_uid {
        Some(u) => Some(u),
        None => parse_numeric_spec(field(eg.header, 108, 8)),
    }
}

/// The group id of a specification-level entry.
pub open spec fn gid_of_g(eg: EntryG) -> Option<int> {
    match eg.pax_gid {
        Some(g) => Some(g),
        None => parse_numeric_spec(field(eg.header, 116, 8)),
    }
}

/// The node a member creates, by its type flag; auxiliary and unknown
/// types create nothing.
pub open spec fn kind_of_g(eg: EntryG) -> Option<Result<OpKindG, Error>> {
    let t = classify_spec(eg.header[156]);
    match t {
        EntryType::Regular => Some(Ok(OpKindG::File(eg.segs))),
        EntryType::Contiguous => Some(Ok(OpKindG::File(eg.segs))),
        EntryType::Directory => Some(Ok(OpKindG::Dir)),
        EntryType::Symlink => Some(Ok(OpKindG::Symlink(link_of_g(eg)))),
        EntryType::Hardlink => Some(Ok(OpKindG::Hardlink(link_of_g(eg)))),
        EntryType::Fifo => Some(Ok(OpKindG::Fifo)),
        EntryType::CharDevice => Some(
            match parse_octal_spec(field(eg.header, 329, 8)) {
                None => Err(Error::BadNumericField),
                Some(maj) => match parse_octal_spec(field(eg.header, 337, 8)) {
                    None => Err(Error::BadNumericField),
                    Some(min) => Ok(OpKindG::CharDevice(maj, min)),
                },
            },
        ),
        EntryType::BlockDevice => Some(
            match parse_octal_spec(field(eg.header, 329, 8)) {
                None => Err(Error::BadNumericField),
                Some(maj) => match parse_octal_spec(field(eg.header, 337, 8)) {
                    None => Err(Error::BadNumericField),
                    Some(min) => Ok(OpKindG::BlockDevice(maj, min)),
                },
            },
        ),
        _ => None,
    }
}

/// The mode bits to apply: the low bits of the stored mode, the extended
/// bits only when asked to preserve them, the configured mask stripped.
pub open spec fn mode_of(m: int, cfg: ArchiveInner) -> int {
    let m32 = (m as u64) as u32;
    let kept = if cfg.preserve_permissions {
        m32
    } else {
        m32 & 0o777
    };
    (kept & !cfg.mask) as int
}

/// Plans one logical entry: sanitize its path, pick the node kind, and
/// gather the attributes the configuration asks for.
pub open spec fn entry_op_g(eg: EntryG, cfg: ArchiveInner) -> PlanG {
    match sanitize_spec(path_of_g(eg)) {
        SanitizeG::NulByte => PlanG::Failed(Error::PathHasNul),
        SanitizeG::Reject => PlanG::Skipped,
        SanitizeG::Clean(cs) => {
            match kind_of_g(eg) {
                None => PlanG::Skipped,
                Some(Err(e)) => PlanG::Failed(e),
                Some(Ok(kind)) => {
                    match parse_octal_spec(field(eg.header, 100, 8)) {
                        None => PlanG::Failed(Error::BadNumericField),
                        Some(m) => {
                            let mtime = if cfg.preserve_mtime {
                                match parse_numeric_spec(field(eg.header, 136, 12)) {
                                    None => Err(Error::BadNumericField),
                                    Some(t) => Ok(Some(t)),
                                }
                            } else {
                                Ok(None)
                            };
                            match mtime {
                                Err(e) => PlanG::Failed(e),
                                Ok(mtime) => {
                                    let own = if cfg.preserve_ownerships {
                                        match (uid_of_g(eg), gid_of_g(eg)) {
                                            (Some(u), Some(g)) => Ok((Some(u), Some(g))),
                                            _ => Err(Error::BadNumericField),
                                        }
                                    } else {
                                        Ok((None, None))
                                    };
                                    match own {
                                        Err(e) => PlanG::Failed(e),
                                        Ok((uid, gid)) => PlanG::Op(
                                            OpG {
                                                path: cs,
                                                kind,
                                                mode: mode_of(m, cfg),
                                                uid,
                                                gid,
                                                mtime,
                                                overwrite: cfg.overwrite,
                                            },
                                        ),
                                    }
                                },
                            }
                        },
                    }
                },
            }
        },
    }
}

/// One planned write, executable form.
pub enum OpKind {
    Dir,
    File(Vec<Seg>),
    Symlink(Vec<u8>),
    Hardlink(Vec<u8>),
    CharDevice(u64, u64),
    BlockDevice(u64, u64),
    Fifo,
}

/// One planned write: create `kind` at the destination-relative `path`,
/// then apply the recorded attributes.
pub struct WriteOp {
    pub path: Vec<Vec<u8>>,
    pub kind: OpKind,
    pub mode: u32,
    pub uid: Option<u64>,
    pub gid: Option<u64>,
    pub mtime: Option<u64>,
    pub overwrite: bool,
}

/// The specification-level image of an executable write.
pub open spec fn op_g_of(op: WriteOp) -> OpG {
    OpG {
        path: parts_view(op.path@),
        kind: match op.kind {
            OpKind::Dir => OpKindG::Dir,
            OpKind::File(segs) => OpKindG::File(segs@),
            OpKind::Symlink(t) => OpKindG::Symlink(t@),
            OpKind::Hardlink(t) => OpKindG::Hardlink(t@),
            OpKind::CharDevice(a, b) => OpKindG::CharDevice(a as int, b as int),
            OpKind::BlockDevice(a, b) => OpKindG::BlockDevice(a as int, b as int),
            OpKind::Fifo => OpKindG::Fifo,
        },
        mode: op.mode as int,
        uid: opt_int(op.uid),
        gid: opt_int(op.gid),
        mtime: opt_int(op.mtime),
        overwrite: op.overwrite,
    }
}

/// The specification-level image of a list of writes.
pub open spec fn ops_view(ops: Seq<WriteOp>) -> Seq<OpG> {
    ops.map_values(|op: WriteOp| op_g_of(op))
}

/// Copies a segment list.
fn copy_segs(v: &Vec<Seg>) -> (r: Vec<Seg>)
    ensures
        r@ == v@,
{
    let n = v.len();
    let mut out: Vec<Seg> = Vec::new();
    let mut i: usize = 0;
    while i < n
        invariant
            0 <= i <= n == v@.len(),
            out@ =~= v@.subrange(0, i as int),
        decreases n - i,
    {
        out.push(v[i]);
        proof {
            assert(out@ =~= v@.subrange(0, i + 1));
        }
        i = i + 1;
    }
    proof {
        assert(out@ =~= v@);
    }
    out
}

/// Plans one entry, as `entry_op_g` describes: `Ok(None)` for an entry
/// that creates nothing (a rejected path counts as a silent skip), an
/// error when a path holds a NUL or a needed numeric field is bad.
pub fn plan_entry(e: &Entry) -> (r: Result<Option<WriteOp>, Error>)
    requires
        e.wf(),
    ensures
        match entry_op_g(
            entry_g_of(*e),
            ArchiveInner {
                pos: 0,
                mask: e.mask,
                unpack_xattrs: e.unpack_xattrs,
                preserve_permissions: e.preserve_permissions,
                preserve_ownerships: e.preserve_ownerships,
                preserve_mtime: e.preserve_mtime,
                overwrite: e.overwrite,
                ignore_zeros: false,
            },
        ) {
            PlanG::Failed(err) => r == Err::<Option<WriteOp>, Error>(err),
            PlanG::Skipped => r == Ok::<Option<WriteOp>, Error>(None),
            PlanG::Op(g) => (r matches Ok(o) && o matches Some(op) && op_g_of(op) == g),
        },
{
    let ghost eg = entry_g_of(*e);
    let path = e.path_bytes();
    proof {
        assert(path@ == path_of_g(eg));
    }
    let cs = match sanitize_path(&path) {
        SanitizedPath::NulByte => {
            return Err(Error::PathHasNul);
        },
        SanitizedPath::Reject => {
            return Ok(None);
        },
        SanitizedPath::Clean(cs) => cs,
    };
    let t = e.entry_type();
    let hb = e.header.as_bytes();
    let kind: OpKind = match t {
        EntryType::Regular => OpKind::File(copy_segs(&e.segments)),
        EntryType::Contiguous => OpKind::File(copy_segs(&e.segments)),
        EntryType::Directory => OpKind::Dir,
        EntryType::Symlink => {
            let lk = e.link_name_bytes();
            proof {
                assert(lk@ == link_of_g(eg));
            }
            OpKind::Symlink(lk)
        },
        EntryType::Hardlink => {
            let lk = e.link_name_bytes();
            proof {
                assert(lk@ == link_of_g(eg));
            }
            OpKind::Hardlink(lk)
        },
        EntryType::Fifo => OpKind::Fifo,
        EntryType::CharDevice => {
            let maj = match parse_octal(hb, 329, 8) {
                Some(v) => v,
                None => {
                    return Err(Error::BadNumericField);
                },
            };
            let min = match parse_octal(hb, 337, 8) {
                Some(v) => v,
                None => {
                    return Err(Error::BadNumericField);
                },
            };
            OpKind::CharDevice(maj, min)
        },
        EntryType::BlockDevice => {
            let maj = match parse_octal(hb, 329, 8) {
                Some(v) => v,
                None => {
                    return Err(Error::BadNumericField);
                },
            };
            let min = match parse_octal(hb, 337, 8) {
                Some(v) => v,
                None => {
                    return Err(Error::BadNumericField);
                },
            };
            OpKind::BlockDevice(maj, min)
        },
        _ => {
            return Ok(None);
        },
    };
    let m = match e.mode() {
        Some(v) => v,
        None => {
            return Err(Error::BadNumericField);
        },
    };
    let mtime: Option<u64> = if e.preserve_mtime {
        match e.mtime() {
            Some(v) => Some(v),
            None => {
                return Err(Error::BadNumericField);
            },
        }
    } else {
        None
    };
    let uid: Option<u64>;
    let gid: Option<u64>;
    if e.preserve_ownerships {
        let u = match e.uid() {
            Some(v) => v,
            None => {
                return Err(Error::BadNumericField);
            },
        };
        let g = match e.gid() {
            Some(v) => v,
            None => {
                return Err(Error::BadNumericField);
            },
        };
        uid = Some(u);
        gid = Some(g);
    } else {
        uid = None;
        gid = None;
    }
    let m32 = #[verifier::truncate] (m as u32);
    let kept = if e.preserve_permissions {
        m32
    } else {
        m32 & 0o777
    };
    let mode = apply_mask(kept, e.mask);
    let op = WriteOp { path: cs, kind, mode, uid, gid, mtime, overwrite: e.overwrite };
    Ok(Some(op))
}

/// An extension-block chain only grows the block count.
proof fn lemma_collect_ext_count(data: Seq<u8>, pos: int, acc: Seq<Seq<u8>>, cnt: int)
    ensures
        crate::archive::collect_ext(data, pos, acc, cnt) matches Ok(out) ==> out.1 >= cnt,
    decreases crate::archive::stream_measure(data, pos),
{
    if 0 <= pos < data.len() && data.len() - pos >= 512 {
        let blk = data.subrange(pos, pos + 512);
        if blk[504] == 1 {
            lemma_collect_ext_count(
                data,
                pos + 512,
                acc + crate::archive::ext_descs(blk),
                cnt + 1,
            );
        }
    }
}

/// A delivered entry strictly advances the archive position.
pub proof fn lemma_logical_next_bounds(
    data: Seq<u8>,
    next: int,
    iz: bool,
    pax: Option<Seq<u8>>,
    lname: Option<Seq<u8>>,
    llink: Option<Seq<u8>>,
    aux_seen: bool,
)
    ensures
        logical_next(data, next, iz, pax, lname, llink, aux_seen) matches NextOutcomeG::Next(eg)
            ==> next < eg.next <= u64::MAX,
    decreases crate::archive::stream_measure(data, next),
{
    crate::archive::lemma_raw_next_bounds(data, next, iz, pax);
    match crate::archive::raw_next(data, next, iz, pax) {
        RawOutcomeG::Next(re) => {
            let recognized = crate::header::variant_spec(re.header)
                != crate::header::HeaderVariant::Old;
            let t = classify_spec(re.header[156]);
            if recognized && t == EntryType::GnuLongName {
                if !(lname is Some) {
                    lemma_logical_next_bounds(
                        data,
                        re.next,
                        iz,
                        pax,
                        Some(
                            crate::entry::strip_one_nul(
                                crate::entry::read_avail(data, re.file_pos, re.size),
                            ),
                        ),
                        llink,
                        true,
                    );
                }
            } else if recognized && t == EntryType::GnuLongLink {
                if !(llink is Some) {
                    lemma_logical_next_bounds(
                        data,
                        re.next,
                        iz,
                        pax,
                        lname,
                        Some(
                            crate::entry::strip_one_nul(
                                crate::entry::read_avail(data, re.file_pos, re.size),
                            ),
                        ),
                        true,
                    );
                }
            } else if recognized && t == EntryType::PaxLocal {
                if !(pax is Some) {
                    lemma_logical_next_bounds(
                        data,
                        re.next,
                        iz,
                        Some(crate::entry::read_avail(data, re.file_pos, re.size)),
                        lname,
                        llink,
                        true,
                    );
                }
            } else if t == EntryType::GnuSparse {
                if crate::header::variant_spec(re.header) == crate::header::HeaderVariant::Gnu {
                    match crate::archive::collect_descs(data, re.header, re.file_pos) {
                        Ok(out) => {
                            if re.header[482] == 1 {
                                lemma_collect_ext_count(
                                    data,
                                    re.file_pos,
                                    Seq::new(
                                        4,
                                        |k: int| re.header.subrange(
                                            386 + 24 * k,
                                            386 + 24 * k + 24,
                                        ),
                                    ),
                                    0,
                                );
                            }
                            assert(out.1 >= 0);
                        },
                        Err(_) => {},
                    }
                }
            }
        },
        _ => {},
    }
}

/// The planned writes of a whole archive from position `next` on:
/// non-directories in archive order, then the deferred directories in
/// archive order.
pub open spec fn plan_rec(data: Seq<u8>, next: int, iz: bool, cfg: ArchiveInner) -> Result<
    (Seq<OpG>, Seq<OpG>),
    Error,
>
    decreases crate::archive::stream_measure(data, next),
    via plan_rec_decreases
{
    match logical_next(data, next, iz, None, None, None, false) {
        NextOutcomeG::Fail(e) => Err(e),
        NextOutcomeG::NoMore => Ok((Seq::empty(), Seq::empty())),
        NextOutcomeG::Next(eg) => {
            match entry_op_g(eg, cfg) {
                PlanG::Failed(e) => Err(e),
                PlanG::Skipped => plan_rec(data, eg.next, iz, cfg),
                PlanG::Op(op) => {
                    match plan_rec(data, eg.next, iz, cfg) {
                        Err(e) => Err(e),
                        Ok((fs, ds)) => {
                            if op.kind is Dir {
                                Ok((fs, seq![op] + ds))
                            } else {
                                Ok((seq![op] + fs, ds))
                            }
                        },
                    }
                },
            }
        },
    }
}

#[via_fn]
proof fn plan_rec_decreases(data: Seq<u8>, next: int, iz: bool, cfg: ArchiveInner) {
    lemma_logical_next_bounds(data, next, iz, None, None, None, false);
}

/// The traversal defense over a whole plan: every planned write sits at
/// a safe destination-relative path, so extraction can never create a
/// filesystem path outside the destination root, whatever the archive
/// held.
pub proof fn lemma_plan_safe(data: Seq<u8>, next: int, iz: bool, cfg: ArchiveInner)
    ensures
        plan_rec(data, next, iz, cfg) matches Ok(out) ==> (forall|i: int|
            0 <= i < out.0.len() ==> safe_path(#[trigger] out.0[i].path)) && (forall|i: int|
            0 <= i < out.1.len() ==> safe_path(#[trigger] out.1[i].path)),
    decreases crate::archive::stream_measure(data, next),
{
    lemma_logical_next_bounds(data, next, iz, None, None, None, false);
    match logical_next(data, next, iz, None, None, None, false) {
        NextOutcomeG::Next(eg) => {
            lemma_plan_safe(data, eg.next, iz, cfg);
            lemma_sanitize_safe(path_of_g(eg));
            match entry_op_g(eg, cfg) {
                PlanG::Op(op) => {
                    match plan_rec(data, eg.next, iz, cfg) {
                        Ok((fs, ds)) => {
                            if op.kind is Dir {
                                assert forall|i: int|
                                    0 <= i < (seq![op] + ds).len() implies safe_path(
                                    #[trigger] (seq![op] + ds)[i].path,
                                ) by {
                                    if i == 0 {
                                        assert((seq![op] + ds)[0] == op);
                                    } else {
                                        assert((seq![op] + ds)[i] == ds[i - 1]);
                                    }
                                }
                            } else {
                                assert forall|i: int|
                                    0 <= i < (seq![op] + fs).len() implies safe_path(
                                    #[trigger] (seq![op] + fs)[i].path,
                                ) by {
                                    if i == 0 {
                                        assert((seq![op] + fs)[0] == op);
                                    } else {
                                        assert((seq![op] + fs)[i] == fs[i - 1]);
                                    }
                                }
                            }
                        },
                        Err(_) => {},
                    }
                },
                _ => {},
            }
        },
        _ => {},
    }
}

impl Archive {
    /// Plans the extraction of the whole archive, as `plan_rec`
    /// describes: entries are planned in order, directories are deferred
    /// to the end so restrictive directory modes cannot block their
    /// descendants, and the first planning failure aborts.
    ///
    /// Executing the returned writes, in order, against a destination
    /// root is the part that touches the filesystem and stays with the
    /// caller, together with the symlink-ancestor walk and the overwrite
    /// check that only the live filesystem can answer.
    #[verifier::rlimit(100)]
    pub fn unpack(&self) -> (r: Result<Vec<WriteOp>, Error>)
        ensures
            self.inner.pos != 0 ==> r == Err::<Vec<WriteOp>, Error>(Error::NotAtStart),
            self.inner.pos == 0 ==> match plan_rec(
                self.data@,
                0,
                self.inner.ignore_zeros,
                unpack_cfg(self.inner),
            ) {
                Err(e) => r == Err::<Vec<WriteOp>, Error>(e),
                Ok(out) => (r matches Ok(v) && ops_view(v@) == out.0 + out.1),
            },
    {
        let ghost d = self.data@;
        let iz = self.inner.ignore_zeros;
        let ghost cfg = unpack_cfg(self.inner);
        let mut it = match self.entries() {
            Err(e) => {
                return Err(e);
            },
            Ok(it) => it,
        };
        let ghost whole = plan_rec(d, 0, iz, cfg);
        let mut files: Vec<WriteOp> = Vec::new();
        let mut dirs: Vec<WriteOp> = Vec::new();
        loop
            invariant_except_break
                !it.done,
                it.pax_extensions is None,
                whole == (match plan_rec(d, it.next as int, iz, cfg) {
                    Err(e) => Err(e),
                    Ok(out) => Ok((ops_view(files@) + out.0, ops_view(dirs@) + out.1)),
                }),
            invariant
                it.archive == self,
                !it.raw,
                self.inner.pos == 0,
                d == self.data@,
                iz == self.inner.ignore_zeros,
                cfg == unpack_cfg(self.inner),
                whole == plan_rec(d, 0, iz, cfg),
            ensures
                whole == Ok::<_, Error>((ops_view(files@), ops_view(dirs@))),
            decreases crate::archive::stream_measure(d, it.next as int),
        {
            let ghost prev_next = it.next as int;
            proof {
                lemma_logical_next_bounds(d, prev_next, iz, None, None, None, false);
            }
            match it.next_entry() {
                Err(e) => {
                    return Err(e);
                },
                Ok(None) => {
                    proof {
                        assert(ops_view(files@) + Seq::<OpG>::empty() =~~= ops_view(files@));
                        assert(ops_view(dirs@) + Seq::<OpG>::empty() =~~= ops_view(dirs@));
                    }
                    break;
                },
                Ok(Some(en)) => {
                    let ghost eg = (match logical_next(d, prev_next, iz, None, None, None, false) {
                        NextOutcomeG::Next(eg) => eg,
                        _ => arbitrary(),
                    });
                    proof {
                        assert(entry_matches(en, eg, self.inner));
                        assert((ArchiveInner {
                            pos: 0,
                            mask: en.mask,
                            unpack_xattrs: en.unpack_xattrs,
                            preserve_permissions: en.preserve_permissions,
                            preserve_ownerships: en.preserve_ownerships,
                            preserve_mtime: en.preserve_mtime,
                            overwrite: en.overwrite,
                            ignore_zeros: false,
                        }) == cfg);
                        assert(path_of_g(entry_g_of(en)) == path_of_g(eg));
                        assert(link_of_g(entry_g_of(en)) == link_of_g(eg));
                        assert(uid_of_g(entry_g_of(en)) == uid_of_g(eg));
                        assert(gid_of_g(entry_g_of(en)) == gid_of_g(eg));
                        assert(kind_of_g(entry_g_of(en)) == kind_of_g(eg));
                        assert(entry_op_g(entry_g_of(en), cfg) == entry_op_g(eg, cfg));
                    }
                    match plan_entry(&en) {
                        Err(e) => {
                            proof {
                                assert(entry_op_g(eg, cfg) == PlanG::Failed(e));
                            }
                            return Err(e);
                        },
                        Ok(None) => {
                            proof {
                                assert(entry_op_g(eg, cfg) == PlanG::Skipped);
                            }
                        },
                        Ok(Some(op)) => {
                            proof {
                                assert(entry_op_g(eg, cfg) == PlanG::Op(op_g_of(op)));
                            }
                            let ghost g = op_g_of(op);
                            let is_dir = matches!(op.kind, OpKind::Dir);
                            proof {
                                assert(is_dir == (g.kind is Dir));
                            }
                            if is_dir {
                                let ghost dv0 = dirs@;
                                dirs.push(op);
                                proof {
                                    assert(ops_view(dirs@) =~~= ops_view(dv0).push(g));
                                    match plan_rec(d, eg.next, iz, cfg) {
                                        Ok(out) => {
                                            assert(ops_view(dirs@) + out.1 =~~= ops_view(dv0) + (
                                            seq![g] + out.1));
                                        },
                                        Err(_) => {},
                                    }
                                }
                            } else {
                                let ghost fv0 = files@;
                                files.push(op);
                                proof {
                                    assert(ops_view(files@) =~~= ops_view(fv0).push(g));
                                    match plan_rec(d, eg.next, iz, cfg) {
                                        Ok(out) => {
                                            assert(ops_view(files@) + out.0 =~~= ops_view(fv0) + (
                                            seq![g] + out.0));
                                        },
                                        Err(_) => {},
                                    }
                                }
                            }
                        },
                    }
                },
            }
        }
        let ghost fpart = ops_view(files@);
        let ghost dpart = ops_view(dirs@);
        while dirs.len() > 0
            invariant
                whole == Ok::<_, Error>((fpart, dpart)),
                fpart + dpart =~~= ops_view(files@) + ops_view(dirs@),
            decreases dirs@.len(),
        {
            let ghost fv0 = files@;
            let ghost dv0 = dirs@;
            let op = dirs.remove(0);
            files.push(op);
            proof {
                assert(ops_view(files@) =~~= ops_view(fv0).push(op_g_of(op)));
                assert(ops_view(dirs@) =~~= ops_view(dv0).drop_first());
                assert(ops_view(dv0)[0] == op_g_of(op));
                assert(ops_view(files@) + ops_view(dirs@) =~~= ops_view(fv0) + ops_view(dv0));
            }
        }
        proof {
            assert(ops_view(dirs@) =~~= Seq::<OpG>::empty());
            assert(ops_view(files@) =~~= fpart + dpart);
        }
        Ok(files)
    }
}

/// The model of executing one write with overwrite on: the tree keeps
/// one node per path, and a write replaces whatever the path held.
pub open spec fn apply_op(t: Map<Seq<Seq<u8>>, OpG>, op: OpG) -> Map<Seq<Seq<u8>>, OpG> {
    t.insert(op.path, op)
}

/// The model of executing a whole plan, in order.
pub open spec fn apply_plan(t: Map<Seq<Seq<u8>>, OpG>, ops: Seq<OpG>) -> Map<Seq<Seq<u8>>, OpG>
    decreases ops.len(),
{
    if ops.len() == 0 {
        t
    } else {
        apply_plan(apply_op(t, ops[0]), ops.drop_first())
    }
}

/// The last write a plan makes at a path, if any.
pub open spec fn plan_value(ops: Seq<OpG>, k: Seq<Seq<u8>>) -> Option<OpG>
    decreases ops.len(),
{
    if ops.len() == 0 {
        None
    } else {
        match plan_value(ops.drop_first(), k) {
            Some(o) => Some(o),
            None => if ops[0].path == k {
                Some(ops[0])
            } else {
                None
            },
        }
    }
}

/// What a tree holds at each path after a plan ran: the plan's last
/// write there, or what the tree held before.
proof fn lemma_apply_plan_at(t: Map<Seq<Seq<u8>>, OpG>, ops: Seq<OpG>, k: Seq<Seq<u8>>)
    ensures
        apply_plan(t, ops).dom().contains(k) == (t.dom().contains(k) || plan_value(ops, k)
            is Some),
        plan_value(ops, k) matches Some(o) ==> apply_plan(t, ops)[k] == o,
        plan_value(ops, k) is None && t.dom().contains(k) ==> apply_plan(t, ops)[k] == t[k],
    decreases ops.len(),
{
    if ops.len() > 0 {
        lemma_apply_plan_at(apply_op(t, ops[0]), ops.drop_first(), k);
    }
}

/// Idempotence of extraction: with overwrite on, running the same plan
/// a second time over the tree the first run produced changes nothing,
/// whatever tree the first run started from.
pub proof fn lemma_unpack_idempotent(t: Map<Seq<Seq<u8>>, OpG>, ops: Seq<OpG>)
    ensures
        apply_plan(apply_plan(t, ops), ops) == apply_plan(t, ops),
{
    let once = apply_plan(t, ops);
    let twice = apply_plan(once, ops);
    assert forall|k: Seq<Seq<u8>>| #[trigger]
        twice.dom().contains(k) == once.dom().contains(k) && (once.dom().contains(k)
            ==> twice[k] == once[k]) by {
        lemma_apply_plan_at(t, ops, k);
        lemma_apply_plan_at(once, ops, k);
    }
    assert(twice =~= once);
}

} // verus!
