//! The database proper: the sorted fixed-stride index, the binary-search
//! locator, and the record resolver that follows the redirect modes to the
//! country and area text.

use vstd::prelude::*;

use crate::bytes::{
    cstr, find_nul, has_nul, read_byte, read_cstr_raw, read_u24, read_u32, u24_le, u32_le,
};
use crate::codec::{contains_marker, gbk_decode, gbk_of, gbk_ok, has_marker};
use crate::IpdbError;

verus! {

/// The answer of one lookup: the queried address and its decoded labels.
pub struct IPInfo {
    /// The queried address, most significant octet first.
    pub ip: [u8; 4],
    /// The decoded country text.
    pub country: String,
    /// The decoded area text; empty when the copyright marker was suppressed,
    /// the fixed sentinel text when the record has no area.
    pub area: String,
}

/// One index entry, unpacked from its 7-byte on-disk form.
pub struct IndexEntry {
    /// The range-start address, most significant octet first.
    pub ip: [u8; 4],
    /// The absolute file offset of the record covering the range.
    pub offset: u32,
}

impl IndexEntry {
    /// Unpack a 7-byte index entry: a little-endian 4-byte key, reversed into
    /// address order, and a little-endian 3-byte record offset.
    pub fn new(data: &[u8]) -> (r: IndexEntry)
        requires
            data@.len() == 7,
        ensures
            r.ip@ =~= seq![data@[3], data@[2], data@[1], data@[0]],
            r.offset == u24_le(data@, 4),
    {
        let ip: [u8; 4] = [data[3], data[2], data[1], data[0]];
        let offset: u32 = data[4] as u32 + data[5] as u32 * 0x100 + data[6] as u32 * 0x1_0000;
        IndexEntry { ip, offset }
    }
}

/// The address as an unsigned 32-bit integer in address order (most
/// significant octet first), the order the index keys are sorted in.
pub open spec fn ip_value(ip: [u8; 4]) -> int {
    ip[0] * 0x100_0000 + ip[1] * 0x1_0000 + ip[2] * 0x100 + ip[3]
}

/// An open database: the file bytes and the parsed header.
pub struct IPDatabase {
    /// The whole database file.
    pub data: Vec<u8>,
    /// Absolute offset of the first index entry.
    pub index_start: u32,
    /// Absolute offset of the last index entry.
    pub index_end: u32,
}

/// The header and index-segment invariant the file must satisfy for lookups
/// to be meaningful: in-range index bounds a whole number of strides apart,
/// at least two entries, and keys strictly ascending.
pub open spec fn file_wf(s: Seq<u8>) -> bool {
    &&& s.len() >= 8
    &&& u32_le(s, 0) <= u32_le(s, 4)
    &&& (u32_le(s, 4) - u32_le(s, 0)) % 7 == 0
    &&& u32_le(s, 4) - u32_le(s, 0) >= 7
    &&& u32_le(s, 4) + 7 <= s.len()
    &&& forall|i: int, j: int|
        0 <= i < j < index_len(s) ==> key_in(s, i) < key_in(s, j)
}

/// Number of entries in the index segment of file bytes `s`.
pub open spec fn index_len(s: Seq<u8>) -> int {
    (u32_le(s, 4) - u32_le(s, 0)) / 7 + 1
}

/// Absolute offset of index entry `i` in file bytes `s`.
pub open spec fn entry_pos_in(s: Seq<u8>, i: int) -> int {
    u32_le(s, 0) + 7 * i
}

/// The key of index entry `i` in file bytes `s`.
pub open spec fn key_in(s: Seq<u8>, i: int) -> int {
    u32_le(s, entry_pos_in(s, i))
}

impl IPDatabase {
    /// The parsed header matches the bytes and the file invariant holds.
    pub open spec fn wf(self) -> bool {
        &&& file_wf(self.data@)
        &&& self.index_start == u32_le(self.data@, 0)
        &&& self.index_end == u32_le(self.data@, 4)
    }

    /// Number of index entries.
    pub open spec fn n_entries(self) -> int {
        index_len(self.data@)
    }

    /// Absolute offset of index entry `i`.
    pub open spec fn entry_pos(self, i: int) -> int {
        entry_pos_in(self.data@, i)
    }

    /// The key of index entry `i`.
    pub open spec fn key_at(self, i: int) -> int {
        key_in(self.data@, i)
    }

    /// The record offset stored in index entry `i`.
    pub open spec fn rec_at(self, i: int) -> int {
        u24_le(self.data@, self.entry_pos(i) + 4)
    }

    /// The index of the entry whose range covers value `v`, over the first
    /// `m` entries: the largest entry with key at most `v`, or entry 0 when
    /// `v` lies before every key.
    pub open spec fn covering_upto(self, v: int, m: int) -> int
        decreases m,
    {
        if m <= 1 {
            0
        } else if self.key_at(m - 1) <= v {
            m - 1
        } else {
            self.covering_upto(v, m - 1)
        }
    }

    /// The index of the entry whose range covers value `v`.
    pub open spec fn covering_index(self, v: int) -> int {
        self.covering_upto(v, self.n_entries())
    }

    /// Parse and validate a database image.  Succeeds exactly on buffers that
    /// satisfy the file invariant; the bytes are kept as given.
    pub fn new(data: Vec<u8>) -> (r: Result<IPDatabase, IpdbError>)
        ensures
            match r {
                Ok(db) => {
                    &&& db.wf()
                    &&& db.data@ == data@
                    &&& file_wf(data@)
                },
                Err(e) => e == IpdbError::Format && !file_wf(data@),
            },
    {
        let index_start = match read_u32(&data, 0) {
            Ok(v) => v,
            Err(_) => {
                return Err(IpdbError::Format);
            },
        };
        let index_end = match read_u32(&data, 4) {
            Ok(v) => v,
            Err(_) => {
                return Err(IpdbError::Format);
            },
        };
        if index_end < index_start {
            return Err(IpdbError::Format);
        }
        let span = index_end - index_start;
        if span % 7 != 0 || span < 7 {
            return Err(IpdbError::Format);
        }
        let dlen = data.len();
        if (dlen as u64) < index_end as u64 + 7 {
            return Err(IpdbError::Format);
        }
        let ghost s = data@;
        let n = (span / 7 + 1) as usize;
        assert(n == index_len(s));

        // The keys must be strictly ascending over the whole segment.
        let mut i: usize = 0;
        while i + 1 < n
            invariant
                index_start == u32_le(s, 0),
                index_end == u32_le(s, 4),
                s == data@,
                dlen == s.len(),
                s.len() >= 8,
                u32_le(s, 0) <= u32_le(s, 4),
                (u32_le(s, 4) - u32_le(s, 0)) % 7 == 0,
                u32_le(s, 4) - u32_le(s, 0) >= 7,
                u32_le(s, 4) + 7 <= s.len(),
                n == index_len(s),
                i < n,
                forall|a: int, b: int| 0 <= a < b <= i ==> key_in(s, a) < key_in(s, b),
            decreases n - i,
        {
            proof {
                lemma_entry_pos_bound(s, i as int);
                lemma_entry_pos_bound(s, i + 1);
            }
            let p = index_start as usize + 7 * i;
            let q = p + 7;
            let k0 = match read_u32(&data, p) {
                Ok(v) => v,
                Err(_) => {
                    return Err(IpdbError::Format);
                },
            };
            let k1 = match read_u32(&data, q) {
                Ok(v) => v,
                Err(_) => {
                    return Err(IpdbError::Format);
                },
            };
            if k0 >= k1 {
                proof {
                    assert(!file_wf(s)) by {
                        if file_wf(s) {
                            assert(key_in(s, i as int) < key_in(s, i + 1));
                        }
                    };
                }
                return Err(IpdbError::Format);
            }
            proof {
                assert(key_in(s, i as int) < key_in(s, i + 1));
                assert forall|a: int, b: int| 0 <= a < b <= i + 1 implies key_in(s, a) < key_in(
                    s,
                    b,
                ) by {
                    if b == i + 1 && a < i {
                        assert(key_in(s, a) < key_in(s, i as int));
                    }
                };
            }
            i = i + 1;
        }
        assert(file_wf(s));
        Ok(IPDatabase { data, index_start, index_end })
    }

    /// The key of index entry `i`, read from the file bytes.
    fn key_at_exec(&self, i: usize) -> (k: u32)
        requires
            self.wf(),
            i < self.n_entries(),
        ensures
            k == self.key_at(i as int),
    {
        let _ = self.data.len();
        proof {
            lemma_entry_pos_bound(self.data@, i as int);
        }
        let p = self.index_start as usize + 7 * i;
        match read_u32(&self.data, p) {
            Ok(v) => v,
            Err(_) => {
                // unreachable: entry `i` lies within the index segment
                assert(false);
                0
            },
        }
    }

    /// The record offset of index entry `i`, read from the file bytes.
    fn rec_at_exec(&self, i: usize) -> (r: u32)
        requires
            self.wf(),
            i < self.n_entries(),
        ensures
            r == self.rec_at(i as int),
            r < 0x100_0000,
    {
        let _ = self.data.len();
        proof {
            lemma_entry_pos_bound(self.data@, i as int);
        }
        let p = self.index_start as usize + 7 * i;
        match read_u24(&self.data, p + 4) {
            Ok(v) => v,
            Err(_) => {
                // unreachable: entry `i` lies within the index segment
                assert(false);
                0
            },
        }
    }

    /// Keys are strictly ascending, so the covering index over the first `m`
    /// entries is pinned down by its two neighbouring comparisons.
    proof fn lemma_covering_upto(self, v: int, i: int, m: int)
        requires
            self.wf(),
            0 <= i < m <= self.n_entries(),
            i == 0 || self.key_at(i) <= v,
            i == m - 1 || v < self.key_at(i + 1),
        ensures
            self.covering_upto(v, m) == i,
        decreases m,
    {
        if i == m - 1 {
            if m > 1 {
                assert(self.key_at(i) <= v);
            }
        } else {
            assert(v < self.key_at(i + 1));
            if i + 1 < m - 1 {
                assert(self.key_at(i + 1) < self.key_at(m - 1));
            }
            assert(v < self.key_at(m - 1));
            self.lemma_covering_upto(v, i, m - 1);
        }
    }

    /// Range-covering law: every address value from the key of entry `i` up
    /// to (but not including) the key of entry `i + 1` — unbounded above for
    /// the last entry — is covered by entry `i`, so `search_entry_offset`
    /// returns the same record offset for all of them.
    pub proof fn lemma_range_covering(self, i: int, v: int)
        requires
            self.wf(),
            0 <= i < self.n_entries(),
            self.key_at(i) <= v,
            i == self.n_entries() - 1 || v < self.key_at(i + 1),
        ensures
            self.covering_index(v) == i,
    {
        self.lemma_covering_upto(v, i, self.n_entries());
    }

    /// Addresses below every key fall back to the first entry.
    pub proof fn lemma_covering_below_first(self, v: int)
        requires
            self.wf(),
            v < self.key_at(0),
        ensures
            self.covering_index(v) == 0,
    {
        if 0 < self.n_entries() - 1 {
            assert(self.key_at(0) < self.key_at(1));
        }
        self.lemma_covering_upto(v, 0, self.n_entries());
    }

    /// Binary search over the index segment: the record offset of the entry
    /// covering `ip`.  Probes move in whole strides; when the span reaches a
    /// single stride, the right entry's key decides between the two.
    pub fn search_entry_offset(&self, ip: [u8; 4]) -> (r: u32)
        requires
            self.wf(),
        ensures
            r == self.rec_at(self.covering_index(ip_value(ip))),
            r < 0x100_0000,
    {
        let v = ip_to_u32(ip);
        let span = self.index_end - self.index_start;
        let n: usize = (span / 7 + 1) as usize;
        assert(n == self.n_entries());
        let mut li: usize = 0;
        let mut ri: usize = n - 1;

        while ri - li > 1
            invariant
                self.wf(),
                n == self.n_entries(),
                li < ri < n,
                li == 0 || self.key_at(li as int) <= v,
                ri == n - 1 || v < self.key_at(ri as int),
                v == ip_value(ip),
            decreases ri - li,
        {
            let mid = li + (ri - li) / 2;
            let mid_key = self.key_at_exec(mid);
            if v < mid_key {
                ri = mid;
            } else if v > mid_key {
                li = mid;
            } else {
                proof {
                    if mid < n - 1 {
                        assert(self.key_at(mid as int) < self.key_at(mid + 1));
                    }
                    self.lemma_covering_upto(v as int, mid as int, n as int);
                }
                return self.rec_at_exec(mid);
            }
        }
        let right_key = self.key_at_exec(ri);
        if v < right_key {
            proof {
                self.lemma_covering_upto(v as int, li as int, n as int);
            }
            self.rec_at_exec(li)
        } else {
            proof {
                assert(ri == n - 1);
                self.lemma_covering_upto(v as int, ri as int, n as int);
            }
            self.rec_at_exec(ri)
        }
    }
}

/// The address octets as the 32-bit integer the index keys are compared in.
pub fn ip_to_u32(ip: [u8; 4]) -> (v: u32)
    ensures
        v == ip_value(ip),
{
    ip[0] as u32 * 0x100_0000 + ip[1] as u32 * 0x1_0000 + ip[2] as u32 * 0x100 + ip[3] as u32
}

// ---------------------------------------------------------------------------
// The record at an offset: mode dispatch and redirect resolution.
//
// `ed` is the position of the record's mode byte, 4 bytes past the record
// offset stored in the index.  Mode 1 redirects the whole record; if the
// redirected position holds mode 2 a second redirect locates the country
// while the area stays right after the secondary offset field.  Mode 2
// redirects the country only: the area stays after the original offset
// field.  Every other mode byte is the first byte of an inline country
// string, with the area following its terminator.
// ---------------------------------------------------------------------------

/// Where the country string lies for the record whose mode byte is at `ed`.
pub open spec fn country_site(s: Seq<u8>, ed: int) -> int {
    if s[ed] == 1 {
        if s[u24_le(s, ed + 1)] == 2 {
            u24_le(s, u24_le(s, ed + 1) + 1)
        } else {
            u24_le(s, ed + 1)
        }
    } else if s[ed] == 2 {
        u24_le(s, ed + 1)
    } else {
        ed
    }
}

/// Where the area field begins (before its own one-level redirect) for the
/// record whose mode byte is at `ed`.
pub open spec fn area_site(s: Seq<u8>, ed: int) -> int {
    if s[ed] == 1 {
        if s[u24_le(s, ed + 1)] == 2 {
            u24_le(s, ed + 1) + 4
        } else {
            find_nul(s, u24_le(s, ed + 1)) + 1
        }
    } else if s[ed] == 2 {
        ed + 4
    } else {
        find_nul(s, ed) + 1
    }
}

/// Where the area string lies, after following the area field's own
/// redirect: a mode byte of 1 or 2 at the field means a 3-byte offset to the
/// text; anything else means the text is inline at the field itself.
pub open spec fn area_target(s: Seq<u8>, a: int) -> int {
    if s[a] == 1 || s[a] == 2 {
        u24_le(s, a + 1)
    } else {
        a
    }
}

/// All reads of the area field at `a` stay inside the buffer, and its text
/// (when the target is not the zero sentinel) is terminated.
pub open spec fn area_ok(s: Seq<u8>, a: int) -> bool {
    &&& 0 <= a < s.len()
    &&& ((s[a] == 1 || s[a] == 2) ==> a + 4 <= s.len())
    &&& (area_target(s, a) != 0 ==> has_nul(s, area_target(s, a)))
}

/// All reads of the record whose mode byte is at `ed` stay inside the
/// buffer and both strings are terminated: exactly the condition for a
/// lookup to come back without a short read.
pub open spec fn resolvable(s: Seq<u8>, ed: int) -> bool {
    &&& 0 <= ed < s.len()
    &&& (s[ed] == 1 ==> ed + 4 <= s.len() && u24_le(s, ed + 1) < s.len())
    &&& (s[ed] == 1 && s[u24_le(s, ed + 1)] == 2 ==> u24_le(s, ed + 1) + 4 <= s.len())
    &&& (s[ed] == 2 ==> ed + 4 <= s.len())
    &&& has_nul(s, country_site(s, ed))
    &&& area_ok(s, area_site(s, ed))
}

/// Direct-record law: when the mode byte at `ed` is neither redirect tag,
/// the country is the string starting at `ed` itself, ending exactly at its
/// first terminator, and the area field starts exactly at the byte after
/// that terminator.
pub proof fn lemma_direct_record_layout(s: Seq<u8>, ed: int)
    requires
        0 <= ed < s.len(),
        s[ed] != 1,
        s[ed] != 2,
    ensures
        country_site(s, ed) == ed,
        cstr(s, ed) == s.subrange(ed, find_nul(s, ed)),
        area_site(s, ed) == find_nul(s, ed) + 1,
{
}

/// Mode-2 law: a record-level mode 2 redirects the country to the stored
/// offset, while the area field is read from the original record position,
/// right after the mode byte and its 3-byte offset — not from the redirected
/// country location.
pub proof fn lemma_mode2_area_stays(s: Seq<u8>, ed: int)
    requires
        0 <= ed < s.len(),
        s[ed] == 2,
    ensures
        country_site(s, ed) == u24_le(s, ed + 1),
        area_site(s, ed) == ed + 4,
{
}

/// Secondary mode-2 law: under a mode-1 redirect whose target holds mode 2,
/// the country follows a second redirect while the area field sits right
/// after the secondary mode byte and its offset field.
pub proof fn lemma_secondary_mode2_area(s: Seq<u8>, ed: int)
    requires
        0 <= ed < s.len(),
        s[ed] == 1,
        0 <= u24_le(s, ed + 1) < s.len(),
        s[u24_le(s, ed + 1)] == 2,
    ensures
        country_site(s, ed) == u24_le(s, u24_le(s, ed + 1) + 1),
        area_site(s, ed) == u24_le(s, ed + 1) + 4,
{
}

/// The raw area field, before decoding: either the zero-offset sentinel for
/// "no area", or the bytes of the area string.
pub enum RawArea {
    /// The area offset resolved to `0`: the record names no area.
    Unknown,
    /// The area string's bytes, terminator excluded.
    Text(Vec<u8>),
}

impl IPDatabase {
    /// Read the raw area field at `a`: follow its one-level redirect and
    /// collect the text bytes, or notice the zero sentinel.
    fn area_raw(&self, a: usize) -> (r: Result<RawArea, IpdbError>)
        ensures
            match r {
                Ok(ar) => {
                    &&& area_ok(self.data@, a as int)
                    &&& match ar {
                        RawArea::Unknown => area_target(self.data@, a as int) == 0,
                        RawArea::Text(b) => {
                            &&& area_target(self.data@, a as int) != 0
                            &&& b@ == cstr(self.data@, area_target(self.data@, a as int))
                        },
                    }
                },
                Err(e) => e == IpdbError::Io && !area_ok(self.data@, a as int),
            },
    {
        let _ = self.data.len();
        let m = match read_byte(&self.data, a) {
            Ok(b) => b,
            Err(e) => {
                return Err(e);
            },
        };
        let t: usize = if m == 1 || m == 2 {
            match read_u24(&self.data, a + 1) {
                Ok(v) => v as usize,
                Err(e) => {
                    return Err(e);
                },
            }
        } else {
            a
        };
        if t == 0 {
            Ok(RawArea::Unknown)
        } else {
            match read_cstr_raw(&self.data, t) {
                Ok((b, _)) => Ok(RawArea::Text(b)),
                Err(e) => Err(e),
            }
        }
    }

    /// The position of the mode byte of the record covering `ip`: the
    /// located record offset plus the 4-byte record header.
    pub open spec fn record_data_pos(self, ip: [u8; 4]) -> int {
        self.rec_at(self.covering_index(ip_value(ip))) + 4
    }

    /// The lookup for `ip` reads only within the buffer and finds both
    /// terminators.
    pub open spec fn lookup_ok(self, ip: [u8; 4]) -> bool {
        resolvable(self.data@, self.record_data_pos(ip))
    }

    /// The raw country bytes the lookup for `ip` decodes.
    pub open spec fn country_bytes(self, ip: [u8; 4]) -> Seq<u8> {
        cstr(self.data@, country_site(self.data@, self.record_data_pos(ip)))
    }

    /// Where the resolved area string for `ip` lies (0 is the sentinel for
    /// "no area").
    pub open spec fn area_pos(self, ip: [u8; 4]) -> int {
        area_target(self.data@, area_site(self.data@, self.record_data_pos(ip)))
    }

    /// The raw area bytes the lookup for `ip` decodes, meaningful when
    /// `area_pos` is not the zero sentinel.
    pub open spec fn area_bytes(self, ip: [u8; 4]) -> Seq<u8> {
        cstr(self.data@, self.area_pos(ip))
    }

    /// The area text the lookup for `ip` must return: the fixed sentinel
    /// text for a zero area offset, nothing when the decoded text carries
    /// the copyright marker, and the decoded text otherwise.
    pub open spec fn area_text(self, ip: [u8; 4]) -> Seq<char> {
        if self.area_pos(ip) == 0 {
            "unknown area"@
        } else if has_marker(gbk_of(self.area_bytes(ip))) {
            Seq::<char>::empty()
        } else {
            gbk_of(self.area_bytes(ip))
        }
    }

    /// Both strings the lookup for `ip` decodes are valid codepage byte
    /// sequences (the area only where one is decoded at all): with a sound
    /// structure, exactly the condition for the lookup to succeed.
    pub open spec fn lookup_decodable(self, ip: [u8; 4]) -> bool {
        &&& gbk_ok(self.country_bytes(ip))
        &&& (self.area_pos(ip) == 0 || gbk_ok(self.area_bytes(ip)))
    }

    /// Resolve the record whose offset the index gave: follow the redirect
    /// modes and return the raw country bytes and the raw area field.
    /// Fails with `Io` exactly when some field lies beyond the end of the
    /// buffer or a string is unterminated.
    pub fn resolve_record(&self, rec_off: u32) -> (r: Result<(Vec<u8>, RawArea), IpdbError>)
        requires
            rec_off < 0x100_0000,
        ensures
            match r {
                Ok((cb, ar)) => {
                    &&& resolvable(self.data@, rec_off + 4)
                    &&& cb@ == cstr(self.data@, country_site(self.data@, rec_off + 4))
                    &&& match ar {
                        RawArea::Unknown => area_target(
                            self.data@,
                            area_site(self.data@, rec_off + 4),
                        ) == 0,
                        RawArea::Text(b) => {
                            &&& area_target(self.data@, area_site(self.data@, rec_off + 4)) != 0
                            &&& b@ == cstr(
                                self.data@,
                                area_target(self.data@, area_site(self.data@, rec_off + 4)),
                            )
                        },
                    }
                },
                Err(e) => e == IpdbError::Io && !resolvable(self.data@, rec_off + 4),
            },
    {
        let _ = self.data.len();
        let ed = rec_off as usize + 4;
        let mode = match read_byte(&self.data, ed) {
            Ok(b) => b,
            Err(e) => {
                return Err(e);
            },
        };
        if mode == 1 {
            let r1 = match read_u24(&self.data, ed + 1) {
                Ok(v) => v as usize,
                Err(e) => {
                    return Err(e);
                },
            };
            let mode2 = match read_byte(&self.data, r1) {
                Ok(b) => b,
                Err(e) => {
                    return Err(e);
                },
            };
            if mode2 == 2 {
                let c = match read_u24(&self.data, r1 + 1) {
                    Ok(v) => v as usize,
                    Err(e) => {
                        return Err(e);
                    },
                };
                let cb = match read_cstr_raw(&self.data, c) {
                    Ok((b, _)) => b,
                    Err(e) => {
                        return Err(e);
                    },
                };
                match self.area_raw(r1 + 4) {
                    Ok(ar) => Ok((cb, ar)),
                    Err(e) => Err(e),
                }
            } else {
                let (cb, p) = match read_cstr_raw(&self.data, r1) {
                    Ok(x) => x,
                    Err(e) => {
                        return Err(e);
                    },
                };
                match self.area_raw(p + 1) {
                    Ok(ar) => Ok((cb, ar)),
                    Err(e) => Err(e),
                }
            }
        } else if mode == 2 {
            let c = match read_u24(&self.data, ed + 1) {
                Ok(v) => v as usize,
                Err(e) => {
                    return Err(e);
                },
            };
            let cb = match read_cstr_raw(&self.data, c) {
                Ok((b, _)) => b,
                Err(e) => {
                    return Err(e);
                },
            };
            match self.area_raw(ed + 4) {
                Ok(ar) => Ok((cb, ar)),
                Err(e) => Err(e),
            }
        } else {
            let (cb, p) = match read_cstr_raw(&self.data, ed) {
                Ok(x) => x,
                Err(e) => {
                    return Err(e);
                },
            };
            match self.area_raw(p + 1) {
                Ok(ar) => Ok((cb, ar)),
                Err(e) => Err(e),
            }
        }
    }

    /// Look up an IPv4 address: locate its record, resolve the redirects,
    /// decode both strings, and suppress area text carrying the copyright
    /// marker.  Succeeds exactly when the record structure stays inside the
    /// buffer and every string it decodes is valid codepage text; `Io` comes
    /// exactly when the structure runs out of the buffer, `Decode` exactly
    /// when the structure is sound but a string is invalid.
    pub fn search_ipv4_info(&self, ip: [u8; 4]) -> (r: Result<IPInfo, IpdbError>)
        requires
            self.wf(),
        ensures
            r is Ok <==> self.lookup_ok(ip) && self.lookup_decodable(ip),
            match r {
                Ok(info) => {
                    &&& info.ip == ip
                    &&& info.country@ == gbk_of(self.country_bytes(ip))
                    &&& info.area@ == self.area_text(ip)
                },
                Err(e) => {
                    &&& (e == IpdbError::Io <==> !self.lookup_ok(ip))
                    &&& (e == IpdbError::Decode <==> self.lookup_ok(ip)
                        && !self.lookup_decodable(ip))
                },
            },
    {
        let rec = self.search_entry_offset(ip);
        let (cb, ar) = match self.resolve_record(rec) {
            Ok(x) => x,
            Err(e) => {
                return Err(e);
            },
        };
        let country = match gbk_decode(&cb) {
            Some(t) => t,
            None => {
                return Err(IpdbError::Decode);
            },
        };
        let area = match ar {
            RawArea::Unknown => "unknown area".to_owned(),
            RawArea::Text(b) => {
                let t = match gbk_decode(&b) {
                    Some(t) => t,
                    None => {
                        return Err(IpdbError::Decode);
                    },
                };
                if contains_marker(t.as_str()) {
                    String::new()
                } else {
                    t
                }
            },
        };
        Ok(IPInfo { ip, country, area })
    }

    /// Look up an address given as its four octets; same contract as
    /// `search_ipv4_info`.
    pub fn search_ip_info(&self, ip: [u8; 4]) -> (r: Result<IPInfo, IpdbError>)
        requires
            self.wf(),
        ensures
            r is Ok <==> self.lookup_ok(ip) && self.lookup_decodable(ip),
            match r {
                Ok(info) => {
                    &&& info.ip == ip
                    &&& info.country@ == gbk_of(self.country_bytes(ip))
                    &&& info.area@ == self.area_text(ip)
                },
                Err(e) => {
                    &&& (e == IpdbError::Io <==> !self.lookup_ok(ip))
                    &&& (e == IpdbError::Decode <==> self.lookup_ok(ip)
                        && !self.lookup_decodable(ip))
                },
            },
    {
        self.search_ipv4_info(ip)
    }

    /// Read and decode the null-terminated string at `offset`, returning the
    /// text and the terminator's absolute position (some callers use that
    /// position as the start of the following field).  Succeeds exactly when
    /// a terminator exists and the bytes before it are valid codepage text.
    pub fn read_c_string_from(&self, offset: usize) -> (r: Result<(String, usize), IpdbError>)
        ensures
            r is Ok <==> has_nul(self.data@, offset as int) && gbk_ok(
                cstr(self.data@, offset as int),
            ),
            match r {
                Ok((t, p)) => {
                    &&& p == find_nul(self.data@, offset as int)
                    &&& t@ == gbk_of(cstr(self.data@, offset as int))
                },
                Err(e) => {
                    &&& (e == IpdbError::Io <==> !has_nul(self.data@, offset as int))
                    &&& (e == IpdbError::Decode <==> has_nul(self.data@, offset as int)
                        && !gbk_ok(cstr(self.data@, offset as int)))
                },
            },
    {
        let (b, p) = match read_cstr_raw(&self.data, offset) {
            Ok(x) => x,
            Err(e) => {
                return Err(e);
            },
        };
        match gbk_decode(&b) {
            Some(t) => Ok((t, p)),
            None => Err(IpdbError::Decode),
        }
    }

    /// Read and decode the area field at `offset` (mode dispatch, one-level
    /// redirect, zero sentinel), without the copyright-marker suppression
    /// that `search_ipv4_info` applies on top.  Succeeds exactly when the
    /// field stays inside the buffer and — unless the target is the zero
    /// sentinel, where nothing is decoded — its text is valid codepage text.
    pub fn get_area(&self, offset: usize) -> (r: Result<String, IpdbError>)
        ensures
            r is Ok <==> area_ok(self.data@, offset as int) && (area_target(
                self.data@,
                offset as int,
            ) == 0 || gbk_ok(cstr(self.data@, area_target(self.data@, offset as int)))),
            match r {
                Ok(t) => {
                    &&& if area_target(self.data@, offset as int) == 0 {
                        t@ == "unknown area"@
                    } else {
                        t@ == gbk_of(cstr(self.data@, area_target(self.data@, offset as int)))
                    }
                },
                Err(e) => {
                    &&& (e == IpdbError::Io <==> !area_ok(self.data@, offset as int))
                    &&& (e == IpdbError::Decode <==> area_ok(self.data@, offset as int)
                        && area_target(self.data@, offset as int) != 0 && !gbk_ok(
                        cstr(self.data@, area_target(self.data@, offset as int)),
                    ))
                },
            },
    {
        let ar = match self.area_raw(offset) {
            Ok(x) => x,
            Err(e) => {
                return Err(e);
            },
        };
        match ar {
            RawArea::Unknown => Ok("unknown area".to_owned()),
            RawArea::Text(b) => match gbk_decode(&b) {
                Some(t) => Ok(t),
                None => Err(IpdbError::Decode),
            },
        }
    }
}

/// Entry positions stay inside the index segment: entry `i` lies at or before
/// the last entry, whose 7 bytes end within the buffer.
proof fn lemma_entry_pos_bound(s: Seq<u8>, i: int)
    requires
        u32_le(s, 0) <= u32_le(s, 4),
        (u32_le(s, 4) - u32_le(s, 0)) % 7 == 0,
        u32_le(s, 4) + 7 <= s.len(),
        0 <= i < index_len(s),
    ensures
        entry_pos_in(s, i) + 7 <= s.len(),
        entry_pos_in(s, i) <= u32_le(s, 4),
{
    let st = u32_le(s, 0);
    let en = u32_le(s, 4);
    assert(7 * i <= en - st) by {
        assert(i <= (en - st) / 7);
        assert(7 * ((en - st) / 7) <= en - st) by (nonlinear_arith)
            requires (en - st) % 7 == 0 && en - st >= 0;
        assert(7 * i <= 7 * ((en - st) / 7)) by (nonlinear_arith)
            requires i <= (en - st) / 7;
    };
}

} // verus!
