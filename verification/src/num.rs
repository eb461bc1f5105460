//! Numeric header fields.
//!
//! Tar stores numbers as ASCII octal, terminated by a NUL or a space and
//! possibly surrounded by spaces. GNU additionally allows a base-256 form
//! for size-like fields: the first byte has its high bit set and the
//! remaining bits form a big-endian two's-complement integer. PAX records
//! store numbers in ASCII decimal.

use vstd::prelude::*;

verus! {

/// The bytes `s[lo .. lo + len]` of a larger buffer.
pub open spec fn field(s: Seq<u8>, lo: int, len: int) -> Seq<u8> {
    s.subrange(lo, lo + len)
}

pub open spec fn is_octal_digit(b: u8) -> bool {
    0x30 <= b <= 0x37
}

pub open spec fn is_dec_digit(b: u8) -> bool {
    0x30 <= b <= 0x39
}

/// Big-endian accumulation of the digit string `s` in the given base on top
/// of the value already accumulated in `acc`. Digits of base 256 are raw
/// bytes; digits of smaller bases are ASCII. A non-digit byte, or a value
/// that no longer fits in 64 bits, yields `None`.
pub open spec fn digits_val(s: Seq<u8>, base: int, acc: int) -> Option<int>
    decreases s.len(),
{
    if s.len() == 0 {
        Some(acc)
    } else {
        let d = if base == 256 {
            s[0] as int
        } else {
            s[0] - 0x30
        };
        if !(0 <= d < base) {
            None
        } else if acc * base + d > u64::MAX {
            None
        } else {
            digits_val(s.drop_first(), base, acc * base + d)
        }
    }
}

/// Octal scan, after the digits, after a space: only spaces may follow
/// until a NUL or the end of the field.
pub open spec fn octal_after_space(s: Seq<u8>, acc: int) -> Option<int>
    decreases s.len(),
{
    if s.len() == 0 {
        Some(acc)
    } else if s[0] == 0x20 {
        octal_after_space(s.drop_first(), acc)
    } else if s[0] == 0 {
        Some(acc)
    } else {
        None
    }
}

/// Octal scan inside the digit run. A NUL ends the field (bytes after it
/// are ignored); a space moves to the trailing-space scan.
pub open spec fn octal_digits(s: Seq<u8>, acc: int) -> Option<int>
    decreases s.len(),
{
    if s.len() == 0 {
        Some(acc)
    } else if is_octal_digit(s[0]) {
        if acc * 8 + (s[0] - 0x30) > u64::MAX {
            None
        } else {
            octal_digits(s.drop_first(), acc * 8 + (s[0] - 0x30))
        }
    } else if s[0] == 0 {
        Some(acc)
    } else if s[0] == 0x20 {
        octal_after_space(s.drop_first(), acc)
    } else {
        None
    }
}

/// Octal scan before the digit run: leading spaces are allowed, then at
/// least one octal digit must follow.
pub open spec fn octal_leading(s: Seq<u8>) -> Option<int>
    decreases s.len(),
{
    if s.len() == 0 {
        None
    } else if s[0] == 0x20 {
        octal_leading(s.drop_first())
    } else if is_octal_digit(s[0]) {
        octal_digits(s.drop_first(), s[0] - 0x30)
    } else {
        None
    }
}

/// The value of an ASCII-octal field: the bytes up to the first NUL,
/// stripped of surrounding spaces, read as octal digits.
pub open spec fn parse_octal_spec(s: Seq<u8>) -> Option<int> {
    octal_leading(s)
}

/// The value of a size-like field: base-256 when the high bit of the first
/// byte is set (a set sign bit does not fit an unsigned size and yields
/// `None`), octal otherwise.
pub open spec fn parse_numeric_spec(s: Seq<u8>) -> Option<int> {
    if s.len() == 0 {
        None
    } else if s[0] >= 128 {
        if s[0] >= 192 {
            None
        } else {
            digits_val(s.drop_first(), 256, s[0] - 128)
        }
    } else {
        parse_octal_spec(s)
    }
}

/// The value of an ASCII-decimal byte string, as PAX records use: nothing
/// but digits, at least one.
pub open spec fn parse_decimal_spec(s: Seq<u8>) -> Option<int> {
    if s.len() == 0 {
        None
    } else {
        digits_val(s, 10, 0)
    }
}

proof fn lemma_octal_after_space_range(s: Seq<u8>, acc: int)
    requires
        0 <= acc <= u64::MAX,
    ensures
        octal_after_space(s, acc) matches Some(v) ==> 0 <= v <= u64::MAX,
    decreases s.len(),
{
    if s.len() > 0 && s[0] == 0x20 {
        lemma_octal_after_space_range(s.drop_first(), acc);
    }
}

proof fn lemma_octal_digits_range(s: Seq<u8>, acc: int)
    requires
        0 <= acc <= u64::MAX,
    ensures
        octal_digits(s, acc) matches Some(v) ==> 0 <= v <= u64::MAX,
    decreases s.len(),
{
    if s.len() > 0 {
        if is_octal_digit(s[0]) && acc * 8 + (s[0] - 0x30) <= u64::MAX {
            lemma_octal_digits_range(s.drop_first(), acc * 8 + (s[0] - 0x30));
        } else if s[0] == 0x20 {
            lemma_octal_after_space_range(s.drop_first(), acc);
        }
    }
}

/// Any value that the octal scanner accepts fits in 64 bits.
pub proof fn lemma_parse_octal_range(s: Seq<u8>)
    ensures
        parse_octal_spec(s) matches Some(v) ==> 0 <= v <= u64::MAX,
    decreases s.len(),
{
    if s.len() > 0 {
        if s[0] == 0x20 {
            lemma_parse_octal_range(s.drop_first());
        } else if is_octal_digit(s[0]) {
            lemma_octal_digits_range(s.drop_first(), s[0] - 0x30);
        }
    }
}

proof fn lemma_digits_val_range(s: Seq<u8>, base: int, acc: int)
    requires
        0 <= acc <= u64::MAX,
    ensures
        digits_val(s, base, acc) matches Some(v) ==> 0 <= v <= u64::MAX,
    decreases s.len(),
{
    if s.len() > 0 {
        let d = if base == 256 {
            s[0] as int
        } else {
            s[0] - 0x30
        };
        if 0 <= d < base && acc * base + d <= u64::MAX {
            lemma_digits_val_range(s.drop_first(), base, acc * base + d);
        }
    }
}

/// Any value that the numeric scanner accepts fits in 64 bits.
pub proof fn lemma_parse_numeric_range(s: Seq<u8>)
    ensures
        parse_numeric_spec(s) matches Some(v) ==> 0 <= v <= u64::MAX,
{
    if s.len() > 0 {
        if s[0] >= 128 {
            if s[0] < 192 {
                lemma_digits_val_range(s.drop_first(), 256, s[0] - 128);
            }
        } else {
            lemma_parse_octal_range(s);
        }
    }
}

/// Any value that the decimal scanner accepts fits in 64 bits.
pub proof fn lemma_parse_decimal_range(s: Seq<u8>)
    ensures
        parse_decimal_spec(s) matches Some(v) ==> 0 <= v <= u64::MAX,
{
    if s.len() > 0 {
        lemma_digits_val_range(s, 10, 0);
    }
}

/// One accumulation step `acc * base + d`, refused when the result would
/// not fit in 64 bits.
fn step_acc(acc: u64, base: u64, d: u64) -> (r: Option<u64>)
    requires
        2 <= base <= 256,
        d < base,
    ensures
        acc * base + d <= u64::MAX ==> r == Some((acc * base + d) as u64),
        acc * base + d > u64::MAX ==> r is None,
{
    let q = (u64::MAX - d) / base;
    proof {
        vstd::arithmetic::div_mod::lemma_fundamental_div_mod((u64::MAX - d) as int, base as int);
        vstd::arithmetic::div_mod::lemma_mod_division_less_than_divisor(
            (u64::MAX - d) as int,
            base as int,
        );
    }
    if acc > q {
        proof {
            let r0 = (u64::MAX - d) as int % base as int;
            assert(acc * base >= (q + 1) * base) by (nonlinear_arith)
                requires
                    acc >= q + 1,
                    base >= 2,
                    q >= 0,
            ;
            assert((q + 1) * base == q * base + base) by (nonlinear_arith);
            assert(u64::MAX - d == q * base + r0);
            assert(acc * base + d > u64::MAX);
        }
        None
    } else {
        proof {
            let r0 = (u64::MAX - d) as int % base as int;
            assert(acc * base <= q * base) by (nonlinear_arith)
                requires
                    acc <= q,
                    base >= 0,
            ;
            assert(u64::MAX - d == q * base + r0);
            assert(acc * base + d <= u64::MAX);
        }
        Some(acc * base + d)
    }
}

/// Reads the ASCII-octal field `h[lo .. lo + len]`.
///
/// Returns the value exactly when the octal scanner accepts the field.
pub fn parse_octal(h: &Vec<u8>, lo: usize, len: usize) -> (r: Option<u64>)
    requires
        lo + len <= h@.len(),
    ensures
        match parse_octal_spec(field(h@, lo as int, len as int)) {
            Some(v) => r == Some(v as u64) && 0 <= v <= u64::MAX,
            None => r is None,
        },
{
    let total = h.len();
    let end = lo + len;
    proof {
        lemma_parse_octal_range(field(h@, lo as int, len as int));
    }
    let ghost whole = parse_octal_spec(field(h@, lo as int, len as int));
    let mut i = lo;
    while i < end && h[i] == 0x20
        invariant
            lo <= i <= end <= h@.len(),
            whole == parse_octal_spec(field(h@, lo as int, len as int)),
            octal_leading(h@.subrange(i as int, end as int)) == whole,
        decreases end - i,
    {
        proof {
            assert(h@.subrange(i as int, end as int).drop_first() =~= h@.subrange(
                i + 1,
                end as int,
            ));
        }
        i = i + 1;
    }
    if i == end {
        return None;
    }
    let b = h[i];
    if !(0x30 <= b && b <= 0x37) {
        return None;
    }
    let mut acc: u64 = (b - 0x30) as u64;
    proof {
        assert(h@.subrange(i as int, end as int).drop_first() =~= h@.subrange(i + 1, end as int));
    }
    i = i + 1;
    while i < end && 0x30 <= h[i] && h[i] <= 0x37
        invariant
            lo <= i <= end <= h@.len(),
            whole == parse_octal_spec(field(h@, lo as int, len as int)),
            octal_digits(h@.subrange(i as int, end as int), acc as int) == whole,
            whole matches Some(v) ==> 0 <= v <= u64::MAX,
        decreases end - i,
    {
        let d = (h[i] - 0x30) as u64;
        proof {
            assert(h@.subrange(i as int, end as int).drop_first() =~= h@.subrange(
                i + 1,
                end as int,
            ));
        }
        match step_acc(acc, 8, d) {
            Some(v) => {
                acc = v;
            },
            None => {
                return None;
            },
        }
        i = i + 1;
    }
    if i == end {
        return Some(acc);
    }
    let b2 = h[i];
    if b2 == 0 {
        return Some(acc);
    }
    if b2 != 0x20 {
        return None;
    }
    proof {
        assert(h@.subrange(i as int, end as int).drop_first() =~= h@.subrange(i + 1, end as int));
    }
    i = i + 1;
    while i < end && h[i] == 0x20
        invariant
            lo <= i <= end <= h@.len(),
            whole == parse_octal_spec(field(h@, lo as int, len as int)),
            octal_after_space(h@.subrange(i as int, end as int), acc as int) == whole,
            whole matches Some(v) ==> 0 <= v <= u64::MAX,
        decreases end - i,
    {
        proof {
            assert(h@.subrange(i as int, end as int).drop_first() =~= h@.subrange(
                i + 1,
                end as int,
            ));
        }
        i = i + 1;
    }
    if i == end || h[i] == 0 {
        Some(acc)
    } else {
        None
    }
}

/// Reads the size-like field `h[lo .. lo + len]`: GNU base-256 when the
/// high bit of the first byte is set, ASCII octal otherwise.
pub fn parse_numeric(h: &Vec<u8>, lo: usize, len: usize) -> (r: Option<u64>)
    requires
        lo + len <= h@.len(),
    ensures
        match parse_numeric_spec(field(h@, lo as int, len as int)) {
            Some(v) => r == Some(v as u64) && 0 <= v <= u64::MAX,
            None => r is None,
        },
{
    if len == 0 {
        return None;
    }
    let total = h.len();
    let end = lo + len;
    let b0 = h[lo];
    if b0 < 128 {
        return parse_octal(h, lo, len);
    }
    if b0 >= 192 {
        return None;
    }
    proof {
        lemma_parse_numeric_range(field(h@, lo as int, len as int));
        assert(field(h@, lo as int, len as int).drop_first() =~= h@.subrange(
            lo + 1,
            end as int,
        ));
    }
    let ghost whole = parse_numeric_spec(field(h@, lo as int, len as int));
    let mut acc: u64 = (b0 - 128) as u64;
    let mut i = lo + 1;
    while i < end
        invariant
            lo + 1 <= i <= end <= h@.len(),
            whole == parse_numeric_spec(field(h@, lo as int, len as int)),
            digits_val(h@.subrange(i as int, end as int), 256, acc as int) == whole,
            whole matches Some(v) ==> 0 <= v <= u64::MAX,
        decreases end - i,
    {
        proof {
            assert(h@.subrange(i as int, end as int).drop_first() =~= h@.subrange(
                i + 1,
                end as int,
            ));
        }
        match step_acc(acc, 256, h[i] as u64) {
            Some(v) => {
                acc = v;
            },
            None => {
                return None;
            },
        }
        i = i + 1;
    }
    Some(acc)
}

/// Reads the whole byte string `v` as an ASCII-decimal number.
pub fn parse_decimal(v: &Vec<u8>) -> (r: Option<u64>)
    ensures
        match parse_decimal_spec(v@) {
            Some(x) => r == Some(x as u64) && 0 <= x <= u64::MAX,
            None => r is None,
        },
{
    let n = v.len();
    if n == 0 {
        return None;
    }
    proof {
        lemma_parse_decimal_range(v@);
        assert(v@.subrange(0, n as int) =~= v@);
    }
    let ghost whole = parse_decimal_spec(v@);
    let mut acc: u64 = 0;
    let mut i: usize = 0;
    while i < n
        invariant
            0 <= i <= n == v@.len(),
            whole == parse_decimal_spec(v@),
            digits_val(v@.subrange(i as int, n as int), 10, acc as int) == whole,
            whole matches Some(x) ==> 0 <= x <= u64::MAX,
        decreases n - i,
    {
        let b = v[i];
        proof {
            assert(v@.subrange(i as int, n as int).drop_first() =~= v@.subrange(i + 1, n as int));
        }
        if !(0x30 <= b && b <= 0x39) {
            return None;
        }
        match step_acc(acc, 10, (b - 0x30) as u64) {
            Some(x) => {
                acc = x;
            },
            None => {
                return None;
            },
        }
        i = i + 1;
    }
    Some(acc)
}

/// `size` rounded up to the next multiple of 512.
pub open spec fn round_up_block(size: int) -> int {
    if size % 512 == 0 {
        size
    } else {
        size + (512 - size % 512)
    }
}

/// Rounds `size` up to a whole number of 512-byte blocks, refusing sizes
/// so close to the 64-bit limit that the archive position could overflow.
pub fn round_up_to_block(size: u64) -> (r: Option<u64>)
    ensures
        size + 511 <= u64::MAX ==> r == Some(round_up_block(size as int) as u64)
            && round_up_block(size as int) <= u64::MAX,
        size + 511 > u64::MAX ==> r is None,
{
    if size > u64::MAX - 511 {
        return None;
    }
    let rem = size % 512;
    if rem == 0 {
        Some(size)
    } else {
        Some(size + (512 - rem))
    }
}

} // verus!
