use ipmark::{DbError, QQWryParser};

fn gbk(s: &str) -> Vec<u8> {
    encoding_rs::GBK.encode(s).0.into_owned()
}

fn push_u32(d: &mut Vec<u8>, v: u32) {
    d.extend_from_slice(&v.to_le_bytes());
}

fn push_u24(d: &mut Vec<u8>, v: usize) {
    d.push((v & 0xff) as u8);
    d.push(((v >> 8) & 0xff) as u8);
    d.push(((v >> 16) & 0xff) as u8);
}

fn push_str(d: &mut Vec<u8>, s: &str) {
    d.extend_from_slice(&gbk(s));
    d.push(0);
}

/// Three ranges: 0.0.0.0-0.255.255.255 (plain strings),
/// 1.1.1.0-1.1.1.255 (whole location redirected), 2.0.0.0-255.255.255.255
/// (country redirected, area ` CZ88.NET`).  1.0.0.0-1.1.0.255 is in no range.
fn sample_db() -> Vec<u8> {
    let mut d = vec![0u8; 8];
    let off_a = d.len();
    push_u32(&mut d, 0x00ff_ffff);
    push_str(&mut d, "CN");
    push_str(&mut d, "AreaA");

    let off_loc = d.len();
    push_str(&mut d, "澳大利亚");
    push_str(&mut d, "APNIC/CloudFlare公共DNS服务器");
    let off_b = d.len();
    push_u32(&mut d, 0x0101_01ff);
    d.push(1);
    push_u24(&mut d, off_loc);

    let off_shared = d.len();
    push_str(&mut d, "Shared");
    let off_c = d.len();
    push_u32(&mut d, 0xffff_ffff);
    d.push(2);
    push_u24(&mut d, off_shared);
    push_str(&mut d, " CZ88.NET");

    let index_start = d.len();
    push_u32(&mut d, 0x0000_0000);
    push_u24(&mut d, off_a);
    push_u32(&mut d, 0x0101_0100);
    push_u24(&mut d, off_b);
    let index_end = d.len();
    push_u32(&mut d, 0x0200_0000);
    push_u24(&mut d, off_c);

    d[0..4].copy_from_slice(&(index_start as u32).to_le_bytes());
    d[4..8].copy_from_slice(&(index_end as u32).to_le_bytes());
    d
}

#[test]
fn new_reads_header() {
    assert!(QQWryParser::new(sample_db()).is_ok());
}

#[test]
fn new_rejects_short_header() {
    assert_eq!(QQWryParser::new(vec![1, 2, 3]).err(), Some(DbError::UnexpectedEof));
    assert_eq!(QQWryParser::new(vec![1, 2, 3, 4, 5, 6, 7]).err(), Some(DbError::UnexpectedEof));
    assert!(QQWryParser::new(vec![0; 8]).is_ok());
}

#[test]
fn lookup_finds_plain_location() {
    let p = QQWryParser::new(sample_db()).unwrap();
    let loc = p.lookup("0.1.2.3").unwrap();
    assert_eq!(loc.country, "CN");
    assert_eq!(loc.area, "AreaA");
}

#[test]
fn lookup_follows_location_redirect() {
    let p = QQWryParser::new(sample_db()).unwrap();
    let loc = p.lookup("1.1.1.1").unwrap();
    assert_eq!(loc.country, "澳大利亚");
    assert_eq!(loc.area, "APNIC/CloudFlare公共DNS服务器");
}

#[test]
fn lookup_follows_country_redirect() {
    let p = QQWryParser::new(sample_db()).unwrap();
    let loc = p.lookup("8.8.8.8").unwrap();
    assert_eq!(loc.country, "Shared");
    assert_eq!(loc.area, " CZ88.NET");
}

#[test]
fn lookup_address_in_no_range() {
    let p = QQWryParser::new(sample_db()).unwrap();
    assert!(p.lookup("1.0.0.1").is_none());
    assert!(p.lookup("1.1.0.255").is_none());
}

#[test]
fn lookup_range_edges() {
    let p = QQWryParser::new(sample_db()).unwrap();
    assert_eq!(p.lookup("0.255.255.255").unwrap().country, "CN");
    assert_eq!(p.lookup("1.1.1.0").unwrap().country, "澳大利亚");
    assert_eq!(p.lookup("1.1.1.255").unwrap().country, "澳大利亚");
    assert_eq!(p.lookup("2.0.0.0").unwrap().country, "Shared");
    assert_eq!(p.lookup("255.255.255.255").unwrap().country, "Shared");
}

#[test]
fn lookup_of_non_address_text() {
    let p = QQWryParser::new(sample_db()).unwrap();
    assert!(p.lookup("hello").is_none());
    assert!(p.lookup("1.2.3").is_none());
    assert!(p.lookup("").is_none());
}

#[test]
fn checked_lookup_reports_corrupt_index() {
    // index end before index start
    let mut d = vec![0u8; 8];
    d[0..4].copy_from_slice(&8u32.to_le_bytes());
    d[4..8].copy_from_slice(&0u32.to_le_bytes());
    let p = QQWryParser::new(d).unwrap();
    assert_eq!(p.checked_lookup("1.2.3.4").err(), Some(DbError::Corrupt));
    // non-address text is looked up before the index is read
    assert!(p.checked_lookup("x").unwrap().is_none());
}

#[test]
fn checked_lookup_reports_index_past_end() {
    let mut d = vec![0u8; 8];
    d[0..4].copy_from_slice(&100u32.to_le_bytes());
    d[4..8].copy_from_slice(&100u32.to_le_bytes());
    let p = QQWryParser::new(d).unwrap();
    assert_eq!(p.checked_lookup("1.2.3.4").err(), Some(DbError::Corrupt));
}

#[test]
fn checked_lookup_reports_address_below_first_range() {
    let mut d = sample_db();
    // first range now starts at 0.0.0.16
    let start = u32::from_le_bytes([d[0], d[1], d[2], d[3]]) as usize;
    d[start..start + 4].copy_from_slice(&16u32.to_le_bytes());
    let p = QQWryParser::new(d).unwrap();
    assert_eq!(p.checked_lookup("0.0.0.1").err(), Some(DbError::Corrupt));
    assert_eq!(p.checked_lookup("0.0.0.16").unwrap().unwrap().country, "CN");
}

#[test]
fn read_location_detects_redirect_cycle() {
    // a location that redirects to itself
    let mut d = vec![0u8; 8];
    d.push(1);
    push_u24(&mut d, 8);
    let p = QQWryParser::new(d).unwrap();
    assert_eq!(p.checked_read_location(8).err(), Some(DbError::Corrupt));
}

#[test]
fn read_location_and_area() {
    let d = sample_db();
    let p = QQWryParser::new(d).unwrap();
    let loc = p.read_location(12);
    assert_eq!(loc.country, "CN");
    assert_eq!(loc.area, "AreaA");
    let (country, next) = p.read_area(12);
    assert_eq!(country, "CN");
    assert_eq!(next, 15);
    let (area, next) = p.read_area(15);
    assert_eq!(area, "AreaA");
    assert_eq!(next, 21);
}

#[test]
fn read_area_without_terminator() {
    let mut d = vec![0u8; 8];
    d.extend_from_slice(b"abc");
    let p = QQWryParser::new(d).unwrap();
    assert_eq!(p.checked_read_area(8).err(), Some(DbError::Corrupt));
    assert_eq!(p.checked_read_area(11).err(), Some(DbError::Corrupt));
}

#[test]
fn read_u24_little_endian() {
    let d = vec![0, 0, 0, 0, 0, 0, 0, 0, 0x01, 0x02, 0x03];
    let p = QQWryParser::new(d).unwrap();
    assert_eq!(p.read_u24(8), 0x030201);
}

#[test]
fn ip_to_u32_dotted_quads() {
    let p = QQWryParser::new(vec![0; 8]).unwrap();
    assert_eq!(p.ip_to_u32("1.2.3.4"), Some(0x0102_0304));
    assert_eq!(p.ip_to_u32("255.255.255.255"), Some(0xffff_ffff));
    assert_eq!(p.ip_to_u32("0.0.0.0"), Some(0));
    assert_eq!(p.ip_to_u32("010.001.0.7"), Some(0x0a01_0007));
}

#[test]
fn ip_to_u32_quirks() {
    let p = QQWryParser::new(vec![0; 8]).unwrap();
    // pieces that do not parse are left out
    assert_eq!(p.ip_to_u32("1.x.2.3.4"), Some(0x0102_0304));
    assert_eq!(p.ip_to_u32("1..2.3.4"), Some(0x0102_0304));
    // a leading plus sign is accepted
    assert_eq!(p.ip_to_u32("+1.2.3.4"), Some(0x0102_0304));
    // numbers past 255 spill into the next byte or are shifted out
    assert_eq!(p.ip_to_u32("256.0.0.1"), Some(1));
    assert_eq!(p.ip_to_u32("0.0.1.256"), Some(0x100));
    assert_eq!(p.ip_to_u32("0.0.2.256"), Some(0x300));
    // not four numbers
    assert_eq!(p.ip_to_u32("1.2.3"), None);
    assert_eq!(p.ip_to_u32("1.2.3.4.5"), None);
    assert_eq!(p.ip_to_u32("-1.2.3.4"), None);
    assert_eq!(p.ip_to_u32("4294967296.1.2.3"), None);
    assert_eq!(p.ip_to_u32(" 1.2.3.4"), None);
}
