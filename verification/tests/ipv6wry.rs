use ipmark::ipv6wry::header_fits;
use ipmark::{DbError, IPv6WryParser, IpAddr};

fn push_u24(d: &mut Vec<u8>, v: usize) {
    d.push((v & 0xff) as u8);
    d.push(((v >> 8) & 0xff) as u8);
    d.push(((v >> 16) & 0xff) as u8);
}

fn push_str(d: &mut Vec<u8>, s: &str) {
    d.extend_from_slice(s.as_bytes());
    d.push(0);
}

fn header(version: u8, format: u8, segments: u8) -> Vec<u8> {
    let mut d = b"IPDB".to_vec();
    d.push(format);
    d.push(0);
    d.push(0);
    d.push(version);
    d.extend_from_slice(&[0; 16]);
    if format != 1 {
        d.push(segments);
    }
    d
}

fn finish(mut d: Vec<u8>, count: u64, base: usize) -> Vec<u8> {
    d[8..16].copy_from_slice(&count.to_le_bytes());
    d[16..24].copy_from_slice(&(base as u64).to_le_bytes());
    d
}

/// IPv4 database: 0.0.0.0 -> "Country1 Region1", 1.1.1.0 -> "Shared" (by
/// redirection) and "  Region2 ", 9.0.0.0 -> empty second segment.
fn v4_db() -> Vec<u8> {
    let mut d = header(4, 1, 2);
    let r1 = d.len();
    push_str(&mut d, "Country1");
    push_str(&mut d, "Region1");
    let shared = d.len();
    push_str(&mut d, "Shared");
    let r2 = d.len();
    d.push(2);
    push_u24(&mut d, shared);
    push_str(&mut d, "  Region2 ");
    let r3 = d.len();
    push_str(&mut d, "Only");
    d.push(2);
    push_u24(&mut d, 0);
    let base = d.len();
    for (key, off) in [(0u32, r1), (0x0101_0100, r2), (0x0900_0000, r3)] {
        d.extend_from_slice(&key.to_le_bytes());
        push_u24(&mut d, off);
    }
    finish(d, 3, base)
}

/// IPv6 database with the record of 2001:470::/32.
fn v6_db() -> Vec<u8> {
    let mut d = header(8, 2, 2);
    let r1 = d.len();
    push_str(&mut d, "Reserved");
    push_str(&mut d, "");
    let r2 = d.len();
    push_str(&mut d, "美国 California州 Fremont");
    push_str(&mut d, "Hurricane Electric LLC 骨干网 - Fremont - IDC 机房 (bgp.he.net)");
    let base = d.len();
    for (key, off) in [(0u64, r1), (0x2001_0470_0000_0000, r2)] {
        d.extend_from_slice(&key.to_le_bytes());
        push_u24(&mut d, off);
    }
    finish(d, 2, base)
}

/// An IPv6 address from its eight 16-bit groups.
fn v6(groups: [u16; 8]) -> IpAddr {
    let mut o = [0u8; 16];
    for (i, g) in groups.iter().enumerate() {
        o[2 * i] = (g >> 8) as u8;
        o[2 * i + 1] = (g & 0xff) as u8;
    }
    IpAddr::V6(o)
}

#[test]
fn header_fits_cases() {
    assert!(!header_fits(&vec![0; 3]));
    assert!(header_fits(&vec![0; 4]));
    assert!(!header_fits(&b"IPDB".to_vec()));
    let mut d = header(4, 1, 2);
    assert!(header_fits(&d));
    d.truncate(23);
    assert!(!header_fits(&d));
    let d = header(4, 2, 3);
    assert!(header_fits(&d));
    let mut d = header(4, 2, 3);
    d.truncate(24);
    assert!(!header_fits(&d));
}

#[test]
fn new_rejects_bad_magic() {
    assert_eq!(IPv6WryParser::new(b"IPDX".to_vec()).err(), Some(DbError::BadMagic));
    assert!(IPv6WryParser::new(v4_db()).is_ok());
}

#[test]
fn lookup_v4_records() {
    let p = IPv6WryParser::new(v4_db()).unwrap();
    assert_eq!(p.lookup(IpAddr::V4([0, 0, 0, 1])), Some("Country1 Region1".to_string()));
    assert_eq!(p.lookup(IpAddr::V4([1, 1, 1, 1])), Some("Shared   Region2".to_string()));
    assert_eq!(p.lookup(IpAddr::V4([1, 1, 1, 0])), Some("Shared   Region2".to_string()));
    assert_eq!(p.lookup(IpAddr::V4([1, 1, 0, 255])), Some("Country1 Region1".to_string()));
    assert_eq!(p.lookup(IpAddr::V4([200, 0, 0, 1])), Some("Only".to_string()));
}

#[test]
fn lookup_of_other_version() {
    let p = IPv6WryParser::new(v4_db()).unwrap();
    assert_eq!(p.lookup(v6([0, 0, 0, 0, 0, 0, 0, 1])), None);
    let q = IPv6WryParser::new(v6_db()).unwrap();
    assert_eq!(q.lookup(IpAddr::V4([1, 1, 1, 1])), None);
}

#[test]
fn lookup_v6_record() {
    let p = IPv6WryParser::new(v6_db()).unwrap();
    assert_eq!(
        p.lookup(v6([0x2001, 0x470, 0, 0x1f9, 0, 0, 0, 2])),
        Some("美国 California州 Fremont Hurricane Electric LLC 骨干网 - Fremont - IDC 机房 (bgp.he.net)".to_string())
    );
    assert_eq!(p.lookup(v6([0x2001, 0x46f, 0xffff, 0, 0, 0, 0, 1])), Some("Reserved".to_string()));
    assert_eq!(p.search_record(0x2001_0470_0000_0000), p.lookup(v6([0x2001, 0x470, 0, 0, 0, 0, 0, 0])));
}

#[test]
fn format_byte_sets_segment_count() {
    // one segment per record
    let mut d = header(4, 2, 1);
    let r = d.len();
    push_str(&mut d, "First");
    push_str(&mut d, "Second");
    let base = d.len();
    d.extend_from_slice(&0u32.to_le_bytes());
    push_u24(&mut d, r);
    let p = IPv6WryParser::new(finish(d, 1, base)).unwrap();
    assert_eq!(p.lookup(IpAddr::V4([5, 5, 5, 5])), Some("First".to_string()));
}

#[test]
fn search_below_every_key_reads_index_offset() {
    // the only key is above the needle: the record at the index offset is read
    let mut d = header(4, 1, 2);
    let base = d.len();
    d.extend_from_slice(&0x0a00_0000u32.to_le_bytes());
    push_u24(&mut d, 0);
    d.push(0);
    let p = IPv6WryParser::new(finish(d, 1, base)).unwrap();
    // at the index offset: bytes 00 00 00 0a -> "" then "" from offset 0 rules
    assert_eq!(p.checked_search_record(1).unwrap(), "");
}

#[test]
fn corrupt_databases() {
    // no records
    let p = IPv6WryParser::new(finish(header(4, 1, 2), 0, 24)).unwrap();
    assert_eq!(p.checked_search_record(1).err(), Some(DbError::Corrupt));
    // index past the end
    let p = IPv6WryParser::new(finish(header(4, 1, 2), 1, 1000)).unwrap();
    assert_eq!(p.checked_lookup(IpAddr::V4([1, 2, 3, 4])).err(), Some(DbError::Corrupt));
    // index position overflows
    let p = IPv6WryParser::new(finish(header(4, 1, 2), 3, u64::MAX as usize)).unwrap();
    assert_eq!(p.checked_search_record(7).err(), Some(DbError::Corrupt));
}

#[test]
fn read_cstring_forms() {
    let mut d = header(4, 1, 2);
    let at = d.len();
    push_str(&mut d, "abc");
    d.extend_from_slice(b"tail");
    let len = d.len();
    let p = IPv6WryParser::new(finish(d, 0, 0)).unwrap();
    assert_eq!(p.read_cstring_with_next(at), ("abc".to_string(), at + 4));
    assert_eq!(p.read_cstring(at + 4), "tail");
    assert_eq!(p.read_cstring_with_next(at + 4), ("tail".to_string(), len + 1));
    assert_eq!(p.read_cstring_with_next(0), (String::new(), 1));
    assert_eq!(p.read_cstring_with_next(len), (String::new(), len + 1));
    assert_eq!(p.checked_read_cstring_with_next(len + 1).err(), Some(DbError::Corrupt));
}

#[test]
fn read_cstring_invalid_utf8_is_replaced() {
    let mut d = header(4, 1, 2);
    let at = d.len();
    d.extend_from_slice(&[b'a', 0xff, b'b', 0]);
    let p = IPv6WryParser::new(finish(d, 0, 0)).unwrap();
    assert_eq!(p.read_cstring(at), "a\u{fffd}b");
}

#[test]
fn read_record_joins_and_trims() {
    let mut d = header(4, 1, 2);
    let at = d.len();
    push_str(&mut d, " \tA");
    push_str(&mut d, "B\u{3000}");
    let p = IPv6WryParser::new(finish(d, 0, 0)).unwrap();
    assert_eq!(p.read_record(at), "A B");
    assert_eq!(p.read_u24(at), 0x410920);
}

#[test]
fn read_record_past_end() {
    let mut d = header(4, 1, 2);
    let at = d.len();
    push_str(&mut d, "only one");
    let p = IPv6WryParser::new(finish(d, 0, 0)).unwrap();
    assert_eq!(p.checked_read_record(at + 9).err(), Some(DbError::Corrupt));
}

#[test]
fn lookup_depends_on_prefix_only() {
    let p = IPv6WryParser::new(v6_db()).unwrap();
    let a = p.lookup(v6([0x2001, 0x470, 0, 0x1f9, 0, 0, 0, 1]));
    let b = p.lookup(v6([0x2001, 0x470, 0, 0x1f9, 0xffff, 0xffff, 0xffff, 0xffff]));
    assert!(a.is_some());
    assert_eq!(a, b);
}
