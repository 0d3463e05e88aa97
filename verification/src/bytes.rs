//! Fixed-width little-endian fields and null-terminated strings, read at
//! absolute offsets from the database bytes.

use vstd::prelude::*;

use crate::IpdbError;

verus! {

/// The 3-byte little-endian offset field, zero-extended.
pub open spec fn u24_le(s: Seq<u8>, i: int) -> int {
    s[i] + s[i + 1] * 0x100 + s[i + 2] * 0x1_0000
}

/// The 4-byte little-endian field.
pub open spec fn u32_le(s: Seq<u8>, i: int) -> int {
    s[i] + s[i + 1] * 0x100 + s[i + 2] * 0x1_0000 + s[i + 3] * 0x100_0000
}

/// Position of the first `0x00` at or after `i`; `s.len()` if there is none
/// (or `i` is out of range).
pub open spec fn find_nul(s: Seq<u8>, i: int) -> int
    decreases s.len() - i,
{
    if i < 0 || i >= s.len() {
        s.len() as int
    } else if s[i] == 0 {
        i
    } else {
        find_nul(s, i + 1)
    }
}

/// There is a terminator at or after `i`, within the buffer.
pub open spec fn has_nul(s: Seq<u8>, i: int) -> bool {
    find_nul(s, i) < s.len()
}

/// The bytes of the null-terminated string at `i`, terminator excluded.
pub open spec fn cstr(s: Seq<u8>, i: int) -> Seq<u8> {
    s.subrange(i, find_nul(s, i))
}

/// `find_nul` lands on the first terminator: at a position known to hold `0`
/// with no `0` before it, the search from `i` stops exactly there.
pub proof fn lemma_find_nul_at(s: Seq<u8>, i: int, p: int)
    requires
        0 <= i <= p < s.len(),
        s[p] == 0,
        forall|j: int| i <= j < p ==> s[j] != 0,
    ensures
        find_nul(s, i) == p,
    decreases p - i,
{
    if i < p {
        lemma_find_nul_at(s, i + 1, p);
    }
}

/// If no terminator occurs in `[i, s.len())`, the search runs off the end.
pub proof fn lemma_find_nul_none(s: Seq<u8>, i: int)
    requires
        0 <= i,
        forall|j: int| i <= j < s.len() ==> s[j] != 0,
    ensures
        find_nul(s, i) == s.len(),
    decreases s.len() - i,
{
    if i < s.len() {
        lemma_find_nul_none(s, i + 1);
    }
}

/// Read the byte at `off`; `Err(Io)` exactly when it is out of range.
pub fn read_byte(data: &Vec<u8>, off: usize) -> (r: Result<u8, IpdbError>)
    ensures
        match r {
            Ok(b) => off < data@.len() && b == data@[off as int],
            Err(e) => e == IpdbError::Io && off >= data@.len(),
        },
{
    if off < data.len() {
        Ok(data[off])
    } else {
        Err(IpdbError::Io)
    }
}

/// Read the 3-byte little-endian field at `off`, zero-extended to 32 bits;
/// `Err(Io)` exactly when it does not fit in the buffer.
pub fn read_u24(data: &Vec<u8>, off: usize) -> (r: Result<u32, IpdbError>)
    ensures
        match r {
            Ok(v) => {
                &&& off + 3 <= data@.len()
                &&& v == u24_le(data@, off as int)
                &&& v < 0x100_0000
            },
            Err(e) => e == IpdbError::Io && off + 3 > data@.len(),
        },
{
    if off < data.len() && data.len() - off >= 3 {
        let b0 = data[off] as u32;
        let b1 = data[off + 1] as u32;
        let b2 = data[off + 2] as u32;
        Ok(b0 + b1 * 0x100 + b2 * 0x1_0000)
    } else {
        Err(IpdbError::Io)
    }
}

/// Read the 4-byte little-endian field at `off`.
pub fn read_u32(data: &Vec<u8>, off: usize) -> (r: Result<u32, IpdbError>)
    ensures
        match r {
            Ok(v) => off + 4 <= data@.len() && v == u32_le(data@, off as int),
            Err(e) => e == IpdbError::Io && off + 4 > data@.len(),
        },
{
    if off < data.len() && data.len() - off >= 4 {
        let b0 = data[off] as u32;
        let b1 = data[off + 1] as u32;
        let b2 = data[off + 2] as u32;
        let b3 = data[off + 3] as u32;
        Ok(b0 + b1 * 0x100 + b2 * 0x1_0000 + b3 * 0x100_0000)
    } else {
        Err(IpdbError::Io)
    }
}

/// Collect the bytes of the null-terminated string at `off` and report the
/// terminator's position; `Err(Io)` exactly when no terminator exists in the
/// rest of the buffer.
pub fn read_cstr_raw(data: &Vec<u8>, off: usize) -> (r: Result<(Vec<u8>, usize), IpdbError>)
    ensures
        match r {
            Ok((b, p)) => {
                &&& has_nul(data@, off as int)
                &&& p == find_nul(data@, off as int)
                &&& b@ == cstr(data@, off as int)
            },
            Err(e) => e == IpdbError::Io && !has_nul(data@, off as int),
        },
{
    if off >= data.len() {
        proof {
            lemma_find_nul_none(data@, off as int);
        }
        return Err(IpdbError::Io);
    }
    let mut buf: Vec<u8> = Vec::new();
    let mut i: usize = off;

    loop
        invariant
            off <= i <= data@.len(),
            buf@ =~= data@.subrange(off as int, i as int),
            forall|j: int| off <= j < i ==> data@[j] != 0,
        decreases data@.len() - i,
    {
        if i >= data.len() {
            proof {
                lemma_find_nul_none(data@, off as int);
            }
            return Err(IpdbError::Io);
        }
        let b = data[i];
        if b == 0 {
            proof {
                lemma_find_nul_at(data@, off as int, i as int);
            }
            return Ok((buf, i));
        }
        buf.push(b);
        i = i + 1;
    }
}

} // verus!
