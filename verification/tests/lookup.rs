use ipdb_parser::database::{IPDatabase, IndexEntry};
use ipdb_parser::IpdbError;

/// Build a database image: an 8-byte header, index entries of `keys` (range
/// starts, address order) pointing at `offsets`, then `tail` appended verbatim
/// after the index so records can be addressed absolutely.
fn build_image(keys: &[u32], offsets: &[u32], tail: &[u8]) -> Vec<u8> {
    let n = keys.len() as u32;
    assert_eq!(keys.len(), offsets.len());
    let index_start: u32 = 8;
    let index_end: u32 = index_start + 7 * (n - 1);
    let mut v: Vec<u8> = Vec::new();
    v.extend_from_slice(&index_start.to_le_bytes());
    v.extend_from_slice(&index_end.to_le_bytes());
    for i in 0..keys.len() {
        v.extend_from_slice(&keys[i].to_le_bytes());
        v.extend_from_slice(&offsets[i].to_le_bytes()[0..3]);
    }
    v.extend_from_slice(tail);
    v
}

/// Offset of the first byte after the index for an index of `n` entries.
fn tail_base(n: u32) -> u32 {
    8 + 7 * n
}

#[test]
fn end_to_end_direct_lookup() {
    // One range 1.0.0.0..1.0.1.0 with a direct record, and a closing entry.
    let base = tail_base(2);
    let rec_a = base;
    let mut tail: Vec<u8> = Vec::new();
    tail.extend_from_slice(&[0u8; 4]); // record header, ignored
    tail.extend_from_slice(b"Test Country\0Test Area\0");
    let rec_b = base + tail.len() as u32;
    tail.extend_from_slice(&[0u8; 4]);
    tail.extend_from_slice(b"Other\0Place\0");
    let image = build_image(&[0x0100_0000, 0x0100_0100], &[rec_a, rec_b], &tail);

    let db = IPDatabase::new(image).unwrap();
    let info = db.search_ip_info([1, 0, 0, 5]).unwrap();
    assert_eq!(info.ip, [1, 0, 0, 5]);
    assert_eq!(info.country, "Test Country");
    assert_eq!(info.area, "Test Area");
}

#[test]
fn range_covering_same_offset() {
    // Every address inside one range resolves to the same record.
    let base = tail_base(2);
    let rec_a = base;
    let mut tail: Vec<u8> = Vec::new();
    tail.extend_from_slice(&[0u8; 4]);
    tail.extend_from_slice(b"A\0a\0");
    let rec_b = base + tail.len() as u32;
    tail.extend_from_slice(&[0u8; 4]);
    tail.extend_from_slice(b"B\0b\0");
    let image = build_image(&[0x0100_0000, 0x0100_0100], &[rec_a, rec_b], &tail);

    let db = IPDatabase::new(image).unwrap();
    let lo = db.search_entry_offset([1, 0, 0, 0]);
    let mid = db.search_entry_offset([1, 0, 0, 5]);
    let hi = db.search_entry_offset([1, 0, 0, 255]);
    assert_eq!(lo, rec_a);
    assert_eq!(mid, rec_a);
    assert_eq!(hi, rec_a);
    // The first address of the next range, and everything above, hits the
    // last record.
    assert_eq!(db.search_entry_offset([1, 0, 1, 0]), rec_b);
    assert_eq!(db.search_entry_offset([255, 255, 255, 255]), rec_b);
    // Below every key the first entry is the fallback.
    assert_eq!(db.search_entry_offset([0, 0, 0, 1]), rec_a);
}

#[test]
fn direct_record_string_boundaries() {
    // The country string ends exactly at the first 0x00 and the area starts
    // at the byte right after it.
    let base = tail_base(2);
    let rec_a = base;
    let mut tail: Vec<u8> = Vec::new();
    tail.extend_from_slice(&[0u8; 4]);
    tail.extend_from_slice(b"Land\0Spot\0");
    let rec_b = base + tail.len() as u32;
    tail.extend_from_slice(&[0u8; 4]);
    tail.extend_from_slice(b"X\0Y\0");
    let image = build_image(&[0x0100_0000, 0x0200_0000], &[rec_a, rec_b], &tail);

    let db = IPDatabase::new(image).unwrap();
    let country_start = (rec_a + 4) as usize;
    let (country, nul_pos) = db.read_c_string_from(country_start).unwrap();
    assert_eq!(country, "Land");
    assert_eq!(nul_pos, country_start + 4);
    let (area, _) = db.read_c_string_from(nul_pos + 1).unwrap();
    assert_eq!(area, "Spot");
    let info = db.search_ip_info([1, 0, 0, 1]).unwrap();
    assert_eq!(info.country, "Land");
    assert_eq!(info.area, "Spot");
}

#[test]
fn mode2_area_from_original_position() {
    // A record-level mode 2 redirects the country but reads the area from
    // the original record, right after the offset field.  A decoy area sits
    // after the redirected country string to catch the swapped reading.
    let base = tail_base(2);
    let rec_a = base;
    // Record A: header, mode 2, u24 country offset, then the inline area.
    let country_pos = base + 4 + 1 + 3 + 10; // after "RightArea\0"
    let mut tail: Vec<u8> = Vec::new();
    tail.extend_from_slice(&[0u8; 4]);
    tail.push(2);
    tail.extend_from_slice(&country_pos.to_le_bytes()[0..3]);
    tail.extend_from_slice(b"RightArea\0");
    tail.extend_from_slice(b"Country\0DecoyArea\0");
    let rec_b = base + tail.len() as u32;
    tail.extend_from_slice(&[0u8; 4]);
    tail.extend_from_slice(b"X\0Y\0");
    let image = build_image(&[0x0100_0000, 0x0200_0000], &[rec_a, rec_b], &tail);

    let db = IPDatabase::new(image).unwrap();
    let info = db.search_ip_info([1, 2, 3, 4]).unwrap();
    assert_eq!(info.country, "Country");
    assert_eq!(info.area, "RightArea");
}

#[test]
fn mode1_full_redirect() {
    // A mode-1 record reads both strings at the redirected position.
    let base = tail_base(2);
    let rec_a = base;
    let strings_pos = base + 4 + 1 + 3;
    let mut tail: Vec<u8> = Vec::new();
    tail.extend_from_slice(&[0u8; 4]);
    tail.push(1);
    tail.extend_from_slice(&strings_pos.to_le_bytes()[0..3]);
    tail.extend_from_slice(b"Far Country\0Far Area\0");
    let rec_b = base + tail.len() as u32;
    tail.extend_from_slice(&[0u8; 4]);
    tail.extend_from_slice(b"X\0Y\0");
    let image = build_image(&[0x0100_0000, 0x0200_0000], &[rec_a, rec_b], &tail);

    let db = IPDatabase::new(image).unwrap();
    let info = db.search_ip_info([1, 0, 0, 7]).unwrap();
    assert_eq!(info.country, "Far Country");
    assert_eq!(info.area, "Far Area");
}

#[test]
fn mode1_then_secondary_mode2() {
    // Mode 1 redirects to a position holding mode 2: the country follows a
    // second redirect, the area sits right after the secondary offset field.
    let base = tail_base(2);
    let rec_a = base;
    let secondary = base + 4 + 1 + 3;
    let country_pos = secondary + 4 + 9; // after "Area Two\0"
    let mut tail: Vec<u8> = Vec::new();
    tail.extend_from_slice(&[0u8; 4]);
    tail.push(1);
    tail.extend_from_slice(&secondary.to_le_bytes()[0..3]);
    tail.push(2);
    tail.extend_from_slice(&country_pos.to_le_bytes()[0..3]);
    tail.extend_from_slice(b"Area Two\0");
    tail.extend_from_slice(b"Country Two\0");
    let rec_b = base + tail.len() as u32;
    tail.extend_from_slice(&[0u8; 4]);
    tail.extend_from_slice(b"X\0Y\0");
    let image = build_image(&[0x0100_0000, 0x0200_0000], &[rec_a, rec_b], &tail);

    let db = IPDatabase::new(image).unwrap();
    let info = db.search_ip_info([1, 9, 9, 9]).unwrap();
    assert_eq!(info.country, "Country Two");
    assert_eq!(info.area, "Area Two");
}

#[test]
fn copyright_marker_suppressed() {
    // Area text holding the marker collapses to the empty area; other text
    // passes through unchanged (the second record's area stays).
    let base = tail_base(2);
    let rec_a = base;
    let mut tail: Vec<u8> = Vec::new();
    tail.extend_from_slice(&[0u8; 4]);
    tail.extend_from_slice(b"Somewhere\0CZ88.NET\0");
    let rec_b = base + tail.len() as u32;
    tail.extend_from_slice(&[0u8; 4]);
    tail.extend_from_slice(b"Elsewhere\0Kept Area\0");
    let image = build_image(&[0x0100_0000, 0x0200_0000], &[rec_a, rec_b], &tail);

    let db = IPDatabase::new(image).unwrap();
    let a = db.search_ip_info([1, 0, 0, 1]).unwrap();
    assert_eq!(a.country, "Somewhere");
    assert_eq!(a.area, "");
    let b = db.search_ip_info([2, 0, 0, 1]).unwrap();
    assert_eq!(b.country, "Elsewhere");
    assert_eq!(b.area, "Kept Area");
}

#[test]
fn marker_inside_longer_area_suppressed() {
    let base = tail_base(2);
    let rec_a = base;
    let mut tail: Vec<u8> = Vec::new();
    tail.extend_from_slice(&[0u8; 4]);
    tail.extend_from_slice(b"Somewhere\0data CZ88.NET tail\0");
    let rec_b = base + tail.len() as u32;
    tail.extend_from_slice(&[0u8; 4]);
    tail.extend_from_slice(b"X\0Y\0");
    let image = build_image(&[0x0100_0000, 0x0200_0000], &[rec_a, rec_b], &tail);

    let db = IPDatabase::new(image).unwrap();
    let a = db.search_ip_info([1, 0, 0, 1]).unwrap();
    assert_eq!(a.area, "");
}

#[test]
fn marker_bytes_inside_multibyte_char_kept() {
    // 0x81 0x43 is one valid GBK character whose trail byte is ASCII `C`:
    // the raw bytes spell the marker, but the decoded text does not, so
    // the area passes through unchanged.
    let base = tail_base(2);
    let rec_a = base;
    let mut tail: Vec<u8> = Vec::new();
    tail.extend_from_slice(&[0u8; 4]);
    tail.extend_from_slice(b"Somewhere\0");
    tail.extend_from_slice(&[0x81, 0x43]);
    tail.extend_from_slice(b"Z88.NET\0");
    let rec_b = base + tail.len() as u32;
    tail.extend_from_slice(&[0u8; 4]);
    tail.extend_from_slice(b"X\0Y\0");
    let image = build_image(&[0x0100_0000, 0x0200_0000], &[rec_a, rec_b], &tail);

    let db = IPDatabase::new(image).unwrap();
    let a = db.search_ip_info([1, 0, 0, 1]).unwrap();
    assert!(a.area.ends_with("Z88.NET"));
    assert!(!a.area.is_empty());
}

#[test]
fn area_offset_zero_is_unknown() {
    // An area field redirecting to offset 0 yields the unknown-area
    // sentinel, not an error.
    let base = tail_base(2);
    let rec_a = base;
    let mut tail: Vec<u8> = Vec::new();
    tail.extend_from_slice(&[0u8; 4]);
    tail.extend_from_slice(b"NoArea Country\0");
    tail.push(1);
    tail.extend_from_slice(&[0, 0, 0]); // u24 area offset 0
    let rec_b = base + tail.len() as u32;
    tail.extend_from_slice(&[0u8; 4]);
    tail.extend_from_slice(b"X\0Y\0");
    let image = build_image(&[0x0100_0000, 0x0200_0000], &[rec_a, rec_b], &tail);

    let db = IPDatabase::new(image).unwrap();
    let info = db.search_ip_info([1, 0, 0, 1]).unwrap();
    assert_eq!(info.country, "NoArea Country");
    assert_eq!(info.area, "unknown area");
}

#[test]
fn area_redirect_followed() {
    // An area field whose own mode byte is a redirect tag points at the
    // actual area text elsewhere in the file.
    let base = tail_base(2);
    let rec_a = base;
    // Record A: header, "C\0", then the area field [2, u24 target].
    let target = base + 4 + 2 + 4; // right after the area field
    let mut tail: Vec<u8> = Vec::new();
    tail.extend_from_slice(&[0u8; 4]);
    tail.extend_from_slice(b"C\0");
    tail.push(2);
    tail.extend_from_slice(&target.to_le_bytes()[0..3]);
    tail.extend_from_slice(b"Linked Area\0");
    let rec_b = base + tail.len() as u32;
    tail.extend_from_slice(&[0u8; 4]);
    tail.extend_from_slice(b"X\0Y\0");
    let image = build_image(&[0x0100_0000, 0x0200_0000], &[rec_a, rec_b], &tail);

    let db = IPDatabase::new(image).unwrap();
    let info = db.search_ip_info([1, 0, 0, 1]).unwrap();
    assert_eq!(info.country, "C");
    assert_eq!(info.area, "Linked Area");
    // The same field through the area reader itself.
    let area_field = (rec_a + 4 + 2) as usize;
    assert_eq!(db.get_area(area_field).unwrap(), "Linked Area");
}

#[test]
fn gbk_multibyte_text_decoded() {
    // 0xD6D0 is the GBK encoding of one CJK character; the decoder must map
    // it, not hand the bytes through.
    let base = tail_base(2);
    let rec_a = base;
    let mut tail: Vec<u8> = Vec::new();
    tail.extend_from_slice(&[0u8; 4]);
    tail.extend_from_slice(&[0xD6, 0xD0, 0x00]); // country
    tail.extend_from_slice(b"a\0"); // area
    let rec_b = base + tail.len() as u32;
    tail.extend_from_slice(&[0u8; 4]);
    tail.extend_from_slice(b"X\0Y\0");
    let image = build_image(&[0x0100_0000, 0x0200_0000], &[rec_a, rec_b], &tail);

    let db = IPDatabase::new(image).unwrap();
    let info = db.search_ip_info([1, 0, 0, 1]).unwrap();
    assert_eq!(info.country, "\u{4e2d}");
    assert_eq!(info.area, "a");
}

#[test]
fn invalid_codepage_bytes_are_decode_error() {
    let base = tail_base(2);
    let rec_a = base;
    let mut tail: Vec<u8> = Vec::new();
    tail.extend_from_slice(&[0u8; 4]);
    tail.extend_from_slice(&[0xFF, 0xFF, 0x00]); // not valid in the codepage
    tail.extend_from_slice(b"a\0");
    let rec_b = base + tail.len() as u32;
    tail.extend_from_slice(&[0u8; 4]);
    tail.extend_from_slice(b"X\0Y\0");
    let image = build_image(&[0x0100_0000, 0x0200_0000], &[rec_a, rec_b], &tail);

    let db = IPDatabase::new(image).unwrap();
    assert_eq!(db.search_ip_info([1, 0, 0, 1]).err(), Some(IpdbError::Decode));
}

#[test]
fn record_past_end_is_io_error() {
    let base = tail_base(2);
    let image = build_image(&[0x0100_0000, 0x0200_0000], &[9999, base], &[0u8; 16]);
    let db = IPDatabase::new(image).unwrap();
    assert_eq!(db.search_ip_info([1, 0, 0, 1]).err(), Some(IpdbError::Io));
}

#[test]
fn unterminated_string_is_io_error() {
    let base = tail_base(2);
    let rec_a = base;
    let mut tail: Vec<u8> = Vec::new();
    tail.extend_from_slice(&[0u8; 4]);
    tail.extend_from_slice(b"runs off the end"); // no terminator anywhere after
    let image = build_image(&[0x0100_0000, 0x0200_0000], &[rec_a, rec_a], &tail);
    let db = IPDatabase::new(image).unwrap();
    assert_eq!(db.search_ip_info([1, 0, 0, 1]).err(), Some(IpdbError::Io));
}

#[test]
fn short_image_rejected() {
    assert_eq!(
        IPDatabase::new(vec![1, 2, 3]).err(),
        Some(IpdbError::Format)
    );
}

#[test]
fn inverted_header_rejected() {
    // index_end before index_start
    let mut v: Vec<u8> = Vec::new();
    v.extend_from_slice(&20u32.to_le_bytes());
    v.extend_from_slice(&8u32.to_le_bytes());
    v.extend_from_slice(&[0u8; 40]);
    assert_eq!(IPDatabase::new(v).err(), Some(IpdbError::Format));
}

#[test]
fn bad_stride_rejected() {
    // index span not a whole number of 7-byte entries
    let mut v: Vec<u8> = Vec::new();
    v.extend_from_slice(&8u32.to_le_bytes());
    v.extend_from_slice(&18u32.to_le_bytes());
    v.extend_from_slice(&[0u8; 40]);
    assert_eq!(IPDatabase::new(v).err(), Some(IpdbError::Format));
}

#[test]
fn single_entry_index_rejected() {
    // A degenerate one-entry index cannot support the terminal comparison.
    let mut v: Vec<u8> = Vec::new();
    v.extend_from_slice(&8u32.to_le_bytes());
    v.extend_from_slice(&8u32.to_le_bytes());
    v.extend_from_slice(&[0u8; 40]);
    assert_eq!(IPDatabase::new(v).err(), Some(IpdbError::Format));
}

#[test]
fn unsorted_index_rejected() {
    let image = build_image(&[0x0200_0000, 0x0100_0000], &[22, 22], &[0u8; 16]);
    assert_eq!(IPDatabase::new(image).err(), Some(IpdbError::Format));
}

#[test]
fn equal_keys_rejected() {
    let image = build_image(&[0x0100_0000, 0x0100_0000], &[22, 22], &[0u8; 16]);
    assert_eq!(IPDatabase::new(image).err(), Some(IpdbError::Format));
}

#[test]
fn index_truncated_rejected() {
    // Header promises an index running past the end of the buffer.
    let mut v: Vec<u8> = Vec::new();
    v.extend_from_slice(&8u32.to_le_bytes());
    v.extend_from_slice(&500u32.to_le_bytes());
    v.extend_from_slice(&[0u8; 40]);
    assert_eq!(IPDatabase::new(v).err(), Some(IpdbError::Format));
}

#[test]
fn index_entry_unpack() {
    // Key bytes are stored little-endian and come out in address order; the
    // record offset is the zero-extended 3-byte field.
    let data: [u8; 7] = [0x05, 0x00, 0x00, 0x01, 0x16, 0x00, 0x00];
    let e = IndexEntry::new(&data);
    assert_eq!(e.ip, [1, 0, 0, 5]);
    assert_eq!(e.offset, 0x16);

    let data2: [u8; 7] = [0xDD, 0xCC, 0xBB, 0xAA, 0x01, 0x02, 0x03];
    let e2 = IndexEntry::new(&data2);
    assert_eq!(e2.ip, [0xAA, 0xBB, 0xCC, 0xDD]);
    assert_eq!(e2.offset, 0x030201);
}
