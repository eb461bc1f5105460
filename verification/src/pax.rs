//! PAX extended-attribute records.
//!
//! A PAX payload is a run of records, each "LEN key=value\n" where LEN is
//! the ASCII-decimal byte count of the whole record, its own digits
//! included. Lookup scans the records in order; the last record with the
//! wanted key wins, and a malformed record ends the scan.

use vstd::prelude::*;

use crate::num::{is_dec_digit, parse_decimal, parse_decimal_spec};
use crate::header::copy_range;

verus! {

/// The first position at or after `i` where `b` occurs in `s`, or the
/// length of `s`.
pub open spec fn find_byte(s: Seq<u8>, b: u8, i: int) -> int
    decreases s.len() - i,
{
    if i < 0 || i >= s.len() {
        s.len() as int
    } else if s[i] == b {
        i
    } else {
        find_byte(s, b, i + 1)
    }
}

/// The first position at or after `i` that does not hold a decimal digit,
/// or the length of `s`.
pub open spec fn digits_end(s: Seq<u8>, i: int) -> int
    decreases s.len() - i,
{
    if i < 0 || i >= s.len() {
        s.len() as int
    } else if is_dec_digit(s[i]) {
        digits_end(s, i + 1)
    } else {
        i
    }
}

/// One decoded record: its key, its value, and how many bytes of the
/// buffer it occupies.
pub struct PaxRecordG {
    pub key: Seq<u8>,
    pub value: Seq<u8>,
    pub reclen: int,
}

/// The record starting at position `p` of the buffer, if one can be read
/// there: a decimal length, a space, a key, '=', a value, and a newline as
/// the record's last byte.
pub open spec fn record_at(s: Seq<u8>, p: int) -> Option<PaxRecordG> {
    let j = digits_end(s, p);
    if !(p + 1 <= j < s.len() && s[j] == 0x20) {
        None
    } else {
        match parse_decimal_spec(s.subrange(p, j)) {
            Some(l) => {
                if !(j - p + 3 <= l && p + l <= s.len() && s[p + l - 1] == 0x0a) {
                    None
                } else {
                    let e = find_byte(s, 0x3d, j + 1);
                    if !(e < p + l - 1) {
                        None
                    } else {
                        Some(
                            PaxRecordG {
                                key: s.subrange(j + 1, e),
                                value: s.subrange(e + 1, p + l - 1),
                                reclen: l,
                            },
                        )
                    }
                }
            },
            None => None,
        }
    }
}

/// The value of the last readable record with the given key, scanning
/// from position `p`.
pub open spec fn pax_lookup_from(s: Seq<u8>, p: int, key: Seq<u8>) -> Option<Seq<u8>>
    decreases s.len() - p,
{
    if p < 0 || p >= s.len() {
        None
    } else {
        match record_at(s, p) {
            None => None,
            Some(r) => {
                let rest = pax_lookup_from(s, p + r.reclen, key);
                if rest is Some {
                    rest
                } else if r.key == key {
                    Some(r.value)
                } else {
                    None
                }
            },
        }
    }
}

/// The value the whole buffer assigns to `key`, if any.
pub open spec fn pax_lookup_spec(s: Seq<u8>, key: Seq<u8>) -> Option<Seq<u8>> {
    pax_lookup_from(s, 0, key)
}

/// The numeric value the buffer assigns to `key`: the record's value read
/// as decimal, when it is well-formed decimal that fits in 64 bits.
pub open spec fn pax_number_spec(s: Seq<u8>, key: Seq<u8>) -> Option<int> {
    match pax_lookup_spec(s, key) {
        Some(v) => parse_decimal_spec(v),
        None => None,
    }
}

/// "size"
pub open spec fn key_size() -> Seq<u8> {
    seq![0x73u8, 0x69u8, 0x7au8, 0x65u8]
}

/// "uid"
pub open spec fn key_uid() -> Seq<u8> {
    seq![0x75u8, 0x69u8, 0x64u8]
}

/// "gid"
pub open spec fn key_gid() -> Seq<u8> {
    seq![0x67u8, 0x69u8, 0x64u8]
}

/// "path"
pub open spec fn key_path() -> Seq<u8> {
    seq![0x70u8, 0x61u8, 0x74u8, 0x68u8]
}

/// "linkpath"
pub open spec fn key_linkpath() -> Seq<u8> {
    seq![0x6cu8, 0x69u8, 0x6eu8, 0x6bu8, 0x70u8, 0x61u8, 0x74u8, 0x68u8]
}

/// Builds the "size" key.
pub fn size_key() -> (r: Vec<u8>)
    ensures
        r@ == key_size(),
{
    let v: Vec<u8> = vec![0x73u8, 0x69u8, 0x7au8, 0x65u8];
    proof {
        assert(v@ =~= key_size());
    }
    v
}

/// Builds the "uid" key.
pub fn uid_key() -> (r: Vec<u8>)
    ensures
        r@ == key_uid(),
{
    let v: Vec<u8> = vec![0x75u8, 0x69u8, 0x64u8];
    proof {
        assert(v@ =~= key_uid());
    }
    v
}

/// Builds the "gid" key.
pub fn gid_key() -> (r: Vec<u8>)
    ensures
        r@ == key_gid(),
{
    let v: Vec<u8> = vec![0x67u8, 0x69u8, 0x64u8];
    proof {
        assert(v@ =~= key_gid());
    }
    v
}

/// Builds the "path" key.
pub fn path_key() -> (r: Vec<u8>)
    ensures
        r@ == key_path(),
{
    let v: Vec<u8> = vec![0x70u8, 0x61u8, 0x74u8, 0x68u8];
    proof {
        assert(v@ =~= key_path());
    }
    v
}

/// Builds the "linkpath" key.
pub fn linkpath_key() -> (r: Vec<u8>)
    ensures
        r@ == key_linkpath(),
{
    let v: Vec<u8> = vec![0x6cu8, 0x69u8, 0x6eu8, 0x6bu8, 0x70u8, 0x61u8, 0x74u8, 0x68u8];
    proof {
        assert(v@ =~= key_linkpath());
    }
    v
}

/// Compares `buf[lo .. hi]` with `key`.
fn bytes_eq_range(buf: &Vec<u8>, lo: usize, hi: usize, key: &Vec<u8>) -> (r: bool)
    requires
        lo <= hi <= buf@.len(),
    ensures
        r == (buf@.subrange(lo as int, hi as int) == key@),
{
    let klen = key.len();
    if hi - lo != klen {
        proof {
            assert(buf@.subrange(lo as int, hi as int).len() == hi - lo);
        }
        return false;
    }
    let mut i: usize = 0;
    while i < klen
        invariant
            0 <= i <= klen == key@.len(),
            lo + klen == hi <= buf@.len(),
            forall|k: int| 0 <= k < i ==> buf@[lo + k] == key@[k],
        decreases klen - i,
    {
        if buf[lo + i] != key[i] {
            proof {
                assert(buf@.subrange(lo as int, hi as int)[i as int] != key@[i as int]);
            }
            return false;
        }
        i = i + 1;
    }
    proof {
        assert(buf@.subrange(lo as int, hi as int) =~= key@);
    }
    true
}

/// Looks `key` up in a PAX record buffer.
///
/// Returns the value of the last readable record bearing the key; a
/// record that cannot be decoded ends the scan.
pub fn pax_value(buf: &Vec<u8>, key: &Vec<u8>) -> (r: Option<Vec<u8>>)
    ensures
        match pax_lookup_spec(buf@, key@) {
            Some(v) => r matches Some(rv) && rv@ == v,
            None => r is None,
        },
{
    let n = buf.len();
    let mut p: usize = 0;
    let mut best: Option<Vec<u8>> = None;
    loop
        invariant
            0 <= p <= n == buf@.len(),
            match pax_lookup_spec(buf@, key@) {
                Some(v) => {
                    match pax_lookup_from(buf@, p as int, key@) {
                        Some(w) => v == w,
                        None => best matches Some(bv) && bv@ == v,
                    }
                },
                None => best is None && pax_lookup_from(buf@, p as int, key@) is None,
            },
        decreases n - p,
    {
        if p >= n {
            return best;
        }
        // length digits
        let mut j = p;
        while j < n && 0x30 <= buf[j] && buf[j] <= 0x39
            invariant
                p <= j <= n == buf@.len(),
                digits_end(buf@, p as int) == digits_end(buf@, j as int),
            decreases n - j,
        {
            j = j + 1;
        }
        proof {
            assert(digits_end(buf@, p as int) == j);
        }
        if j == p || j >= n || buf[j] != 0x20 {
            return best;
        }
        let digits = copy_range(buf, p, j - p);
        let l_u64 = match parse_decimal(&digits) {
            Some(v) => v,
            None => {
                return best;
            },
        };
        if l_u64 > (n - p) as u64 {
            return best;
        }
        let l = l_u64 as usize;
        if l < 3 || l - 3 < j - p {
            return best;
        }
        if buf[p + l - 1] != 0x0a {
            return best;
        }
        // first '=' after the space
        let mut e = j + 1;
        while e < n && buf[e] != 0x3d
            invariant
                j + 1 <= e <= n == buf@.len(),
                find_byte(buf@, 0x3d, j + 1) == find_byte(buf@, 0x3d, e as int),
            decreases n - e,
        {
            e = e + 1;
        }
        proof {
            assert(find_byte(buf@, 0x3d, j + 1) == e);
        }
        if e >= p + l - 1 {
            return best;
        }
        let ghost rec = record_at(buf@, p as int);
        proof {
            assert(rec matches Some(g) && g.key == buf@.subrange(j + 1, e as int) && g.value
                == buf@.subrange(e + 1, p + l - 1) && g.reclen == l as int);
        }
        if bytes_eq_range(buf, j + 1, e, key) {
            best = Some(copy_range(buf, e + 1, p + l - 1 - (e + 1)));
        }
        p = p + l;
    }
}

/// Looks `key` up and reads its value as a decimal number.
pub fn pax_number(buf: &Vec<u8>, key: &Vec<u8>) -> (r: Option<u64>)
    ensures
        match pax_number_spec(buf@, key@) {
            Some(v) => r == Some(v as u64) && 0 <= v <= u64::MAX,
            None => r is None,
        },
{
    match pax_value(buf, key) {
        Some(v) => parse_decimal(&v),
        None => None,
    }
}

} // verus!
