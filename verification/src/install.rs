//! Turning the downloaded material into database bytes: seed extraction from
//! the key resource, the XOR decryption of the archive's 512-byte prefix,
//! and decompression of the result.

use flate2::read::ZlibDecoder;
use std::io::Read;
use vstd::prelude::*;

use crate::bytes::u32_le;
use crate::InstallError;

verus! {

/// One step of the key schedule: multiply, increment, keep the low byte.
/// Only the low byte of the previous key matters, so seeding with any 32-bit
/// value is safe.
pub open spec fn next_key(k: int) -> int {
    ((k % 256) * 0x805 + 1) % 256
}

/// The key after `i` steps from seed `k0` (the seed itself for `i == 0`).
pub open spec fn key_after(k0: int, i: nat) -> int
    decreases i,
{
    if i == 0 {
        k0
    } else {
        next_key(key_after(k0, (i - 1) as nat))
    }
}

/// The archive after decryption: each of the first 512 bytes XORed with the
/// key as advanced past that byte; the rest untouched.
pub open spec fn decrypted(s: Seq<u8>, k0: int) -> Seq<u8> {
    Seq::new(
        s.len(),
        |i: int|
            if i < 512 {
                s[i] ^ (key_after(k0, (i + 1) as nat) as u8)
            } else {
                s[i]
            },
    )
}

/// What a byte buffer inflates to as a zlib stream.  Inflation is a function
/// of the input bytes alone; it is left unspecified here and supplied by the
/// decompressor.
pub uninterp spec fn inflate_of(s: Seq<u8>) -> Seq<u8>;

/// Whether a byte buffer is a well-formed zlib stream that inflates without
/// error.  A function of the bytes alone, supplied by the decompressor.
pub uninterp spec fn inflate_ok(s: Seq<u8>) -> bool;

/// Relies on `flate2::read::ZlibDecoder` (through `std::io::Read::read_to_end`):
/// the inflated bytes are a function of the input bytes alone, success comes
/// exactly on well-formed streams, and a malformed stream is reported as an
/// error.
#[verifier::external_body]
fn inflate(data: &Vec<u8>) -> (r: Option<Vec<u8>>)
    ensures
        r is Some <==> inflate_ok(data@),
        r is Some ==> r->0@ == inflate_of(data@),
{
    let mut decoder = ZlibDecoder::new(&data[..]);
    let mut buf: Vec<u8> = Vec::new();
    match decoder.read_to_end(&mut buf) {
        Ok(_) => Some(buf),
        Err(_) => None,
    }
}

/// Extract the 4-byte little-endian decryption seed from its fixed position
/// (bytes 20 to 23) in the downloaded key resource.
pub fn get_key(body: &Vec<u8>) -> (r: Result<u32, InstallError>)
    ensures
        match r {
            Ok(k) => body@.len() >= 24 && k == u32_le(body@, 20),
            Err(e) => e == InstallError::ShortKey && body@.len() < 24,
        },
{
    if body.len() < 24 {
        return Err(InstallError::ShortKey);
    }
    let b0 = body[20] as u32;
    let b1 = body[21] as u32;
    let b2 = body[22] as u32;
    let b3 = body[23] as u32;
    Ok(b0 + b1 * 0x100 + b2 * 0x1_0000 + b3 * 0x100_0000)
}

/// Decrypt the archive's 512-byte encrypted prefix in place: advance the key
/// schedule once per byte and XOR the byte with the key's low byte.
pub fn decrypt_prefix(raw: Vec<u8>, key: u32) -> (r: Result<Vec<u8>, InstallError>)
    ensures
        match r {
            Ok(out) => raw@.len() >= 512 && out@ == decrypted(raw@, key as int),
            Err(e) => e == InstallError::ShortArchive && raw@.len() < 512,
        },
{
    if raw.len() < 512 {
        return Err(InstallError::ShortArchive);
    }
    let mut out = raw;
    let ghost orig = out@;
    let mut k: u32 = key;
    let mut i: usize = 0;
    while i < 512
        invariant
            i <= 512 <= orig.len(),
            out@.len() == orig.len(),
            k == key_after(key as int, i as nat),
            k == key || k < 256,
            forall|j: int|
                0 <= j < i ==> out@[j] == (orig[j] ^ (key_after(
                    key as int,
                    (j + 1) as nat,
                ) as u8)),
            forall|j: int| i <= j < orig.len() ==> out@[j] == orig[j],
        decreases 512 - i,
    {
        k = ((k % 256) * 0x805 + 1) % 256;
        assert(k == key_after(key as int, (i + 1) as nat));
        let b = out[i];
        out.set(i, b ^ (k as u8));
        i = i + 1;
    }
    assert(out@ =~= decrypted(orig, key as int));
    Ok(out)
}

/// The whole maintenance computation, from the two downloaded resources to
/// the installable database bytes: take the seed from the key resource,
/// decrypt the archive's prefix, and inflate the result.  Succeeds exactly
/// when the key resource holds the seed field, the archive covers the
/// encrypted prefix, and the decrypted archive is a well-formed stream.
pub fn prepare_database(archive: Vec<u8>, key_body: &Vec<u8>) -> (r: Result<Vec<u8>, InstallError>)
    ensures
        r is Ok <==> key_body@.len() >= 24 && archive@.len() >= 512 && inflate_ok(
            decrypted(archive@, u32_le(key_body@, 20)),
        ),
        match r {
            Ok(db) => {
                &&& key_body@.len() >= 24
                &&& archive@.len() >= 512
                &&& db@ == inflate_of(decrypted(archive@, u32_le(key_body@, 20)))
            },
            Err(e) => match e {
                InstallError::ShortKey => key_body@.len() < 24,
                InstallError::ShortArchive => key_body@.len() >= 24 && archive@.len() < 512,
                InstallError::Inflate => {
                    &&& key_body@.len() >= 24
                    &&& archive@.len() >= 512
                    &&& !inflate_ok(decrypted(archive@, u32_le(key_body@, 20)))
                },
            },
        },
{
    let key = match get_key(key_body) {
        Ok(k) => k,
        Err(e) => {
            return Err(e);
        },
    };
    let plain = match decrypt_prefix(archive, key) {
        Ok(p) => p,
        Err(e) => {
            return Err(e);
        },
    };
    match inflate(&plain) {
        Some(db) => Ok(db),
        None => Err(InstallError::Inflate),
    }
}

} // verus!

