use ipmark::{
    lookup_ip, transform_line, AsnRecord, CityRecord, GeoCache, IPv6WryParser, IpAddr, IpFacts,
    IpMatcher, MarkupError, MaxmindRecord, QQWryParser,
};

fn gbk(s: &str) -> Vec<u8> {
    encoding_rs::GBK.encode(s).0.into_owned()
}

fn push_u24(d: &mut Vec<u8>, v: usize) {
    d.push((v & 0xff) as u8);
    d.push(((v >> 8) & 0xff) as u8);
    d.push(((v >> 16) & 0xff) as u8);
}

/// QQWry: 0.0.0.0-1.1.0.255 "保留地址"/" CZ88.NET"; 1.1.1.0-255.255.255.255
/// "澳大利亚"/"APNIC/CloudFlare公共DNS服务器".
fn qqwry() -> QQWryParser {
    let mut d = vec![0u8; 8];
    let r1 = d.len();
    d.extend_from_slice(&0x0101_00ffu32.to_le_bytes());
    d.extend_from_slice(&gbk("保留地址"));
    d.push(0);
    d.extend_from_slice(b" CZ88.NET\0");
    let r2 = d.len();
    d.extend_from_slice(&0xffff_ffffu32.to_le_bytes());
    d.extend_from_slice(&gbk("澳大利亚"));
    d.push(0);
    d.extend_from_slice(&gbk("APNIC/CloudFlare公共DNS服务器"));
    d.push(0);
    let start = d.len();
    d.extend_from_slice(&0u32.to_le_bytes());
    push_u24(&mut d, r1);
    let end = d.len();
    d.extend_from_slice(&0x0101_0100u32.to_le_bytes());
    push_u24(&mut d, r2);
    d[0..4].copy_from_slice(&(start as u32).to_le_bytes());
    d[4..8].copy_from_slice(&(end as u32).to_le_bytes());
    QQWryParser::new(d).unwrap()
}

/// IPDB (IPv6): everything from 2001:470::/32 on is Hurricane Electric.
fn ipv6wry() -> IPv6WryParser {
    let mut d = b"IPDB".to_vec();
    d.extend_from_slice(&[1, 0, 0, 8]);
    d.extend_from_slice(&[0; 16]);
    let r1 = d.len();
    d.extend_from_slice(b"Reserved\0\0");
    let r2 = d.len();
    d.extend_from_slice("美国 California州 Fremont\0".as_bytes());
    d.extend_from_slice("Hurricane Electric LLC 骨干网 - Fremont - IDC 机房 (bgp.he.net)\0".as_bytes());
    let base = d.len();
    d.extend_from_slice(&0u64.to_le_bytes());
    push_u24(&mut d, r1);
    d.extend_from_slice(&0x2001_0470_0000_0000u64.to_le_bytes());
    push_u24(&mut d, r2);
    d[8..16].copy_from_slice(&2u64.to_le_bytes());
    d[16..24].copy_from_slice(&(base as u64).to_le_bytes());
    IPv6WryParser::new(d).unwrap()
}

fn v4(a: u8, b: u8, c: u8, d: u8) -> Option<IpAddr> {
    Some(IpAddr::V4([a, b, c, d]))
}

fn he_v6() -> Option<IpAddr> {
    Some(IpAddr::V6([0x20, 0x01, 0x04, 0x70, 0, 0, 0x01, 0xf9, 0, 0, 0, 0, 0, 0, 0, 2]))
}

fn local_facts(addr: Option<IpAddr>) -> IpFacts {
    IpFacts { addr, maxmind: None }
}

fn cloudflare_maxmind() -> MaxmindRecord {
    MaxmindRecord {
        asn: Some(AsnRecord {
            number: Some(13335),
            organization: Some("Cloudflare, Inc.".to_string()),
        }),
        city: Some(CityRecord { country: Some("Australia".to_string()), city: None }),
    }
}

#[test]
fn matcher_finds_addresses() {
    let m = IpMatcher::new().unwrap();
    assert_eq!(
        m.ip_texts("a 1.1.1.1, b 2001:470:0:1f9::2; c 10.0.0.300 d fe80:0:0:0:0:0:0:1"),
        vec!["1.1.1.1", "2001:470:0:1f9::2", "fe80:0:0:0:0:0:0:1"]
    );
    assert!(m.ip_texts("no address here").is_empty());
}

#[test]
fn lookup_ip_qqwry_note() {
    let (q, v) = (qqwry(), ipv6wry());
    let note = lookup_ip("1.1.1.1", &local_facts(v4(1, 1, 1, 1)), &q, &v).unwrap();
    assert_eq!(note, "澳大利亚 APNIC/CloudFlare公共DNS服务器");
}

#[test]
fn lookup_ip_drops_cz88_placeholder() {
    let (q, v) = (qqwry(), ipv6wry());
    let note = lookup_ip("0.1.0.1", &local_facts(v4(0, 1, 0, 1)), &q, &v).unwrap();
    assert_eq!(note, "保留地址");
}

#[test]
fn lookup_ip_ipv6_note() {
    let (q, v) = (qqwry(), ipv6wry());
    let note = lookup_ip("2001:470:0:1f9::2", &local_facts(he_v6()), &q, &v).unwrap();
    assert_eq!(note, "美国 California州 Fremont Hurricane Electric LLC 骨干网 - Fremont - IDC 机房 (bgp.he.net)");
}

#[test]
fn lookup_ip_maxmind_note() {
    let (q, v) = (qqwry(), ipv6wry());
    let facts = IpFacts { addr: v4(1, 1, 1, 1), maxmind: Some(cloudflare_maxmind()) };
    assert_eq!(lookup_ip("1.1.1.1", &facts, &q, &v).unwrap(), "AS13335 Cloudflare, Inc. Australia");
}

#[test]
fn lookup_ip_maxmind_partial_records() {
    let (q, v) = (qqwry(), ipv6wry());
    let facts = IpFacts {
        addr: v4(9, 9, 9, 9),
        maxmind: Some(MaxmindRecord {
            asn: Some(AsnRecord { number: None, organization: None }),
            city: Some(CityRecord { country: None, city: None }),
        }),
    };
    assert_eq!(lookup_ip("9.9.9.9", &facts, &q, &v).unwrap(), "AS0");
    let facts = IpFacts {
        addr: v4(9, 9, 9, 9),
        maxmind: Some(MaxmindRecord {
            asn: None,
            city: Some(CityRecord { country: None, city: Some("Zürich".to_string()) }),
        }),
    };
    assert_eq!(lookup_ip("9.9.9.9", &facts, &q, &v).unwrap(), "Zürich");
    let facts = IpFacts { addr: v4(9, 9, 9, 9), maxmind: Some(MaxmindRecord { asn: None, city: None }) };
    assert_eq!(lookup_ip("9.9.9.9", &facts, &q, &v).unwrap(), "");
}

#[test]
fn lookup_ip_blanks_line_breaks() {
    let (q, v) = (qqwry(), ipv6wry());
    let facts = IpFacts {
        addr: v4(9, 9, 9, 9),
        maxmind: Some(MaxmindRecord {
            asn: Some(AsnRecord { number: Some(7), organization: Some("A\nB\tC".to_string()) }),
            city: None,
        }),
    };
    assert_eq!(lookup_ip("9.9.9.9", &facts, &q, &v).unwrap(), "AS7 A B C");
}

#[test]
fn lookup_ip_of_non_address() {
    let (q, v) = (qqwry(), ipv6wry());
    assert_eq!(lookup_ip("1.2.3.999", &local_facts(None), &q, &v).unwrap(), "");
}

#[test]
fn transform_line_marks_public_addresses() {
    let (q, v, m) = (qqwry(), ipv6wry(), IpMatcher::new().unwrap());
    let mut cache = GeoCache::new(1000);
    let line = "2001:470:0:1f9::2 1.1.1.1";
    let facts = vec![local_facts(he_v6()), local_facts(v4(1, 1, 1, 1))];
    let out = transform_line(line, &m, &facts, &q, &v, &mut cache).unwrap();
    assert_eq!(
        out,
        "2001:470:0:1f9::2(美国 California州 Fremont Hurricane Electric LLC 骨干网 - Fremont - IDC 机房 (bgp.he.net)) 1.1.1.1(澳大利亚 APNIC/CloudFlare公共DNS服务器)"
    );
}

#[test]
fn transform_line_maxmind_scenario() {
    let (q, v, m) = (qqwry(), ipv6wry(), IpMatcher::new().unwrap());
    let mut cache = GeoCache::new(1000);
    let facts = vec![IpFacts { addr: v4(1, 1, 1, 1), maxmind: Some(cloudflare_maxmind()) }];
    let out = transform_line("1.1.1.1", &m, &facts, &q, &v, &mut cache).unwrap();
    assert_eq!(out, "1.1.1.1(AS13335 Cloudflare, Inc. Australia)");
}

#[test]
fn transform_line_skips_private_and_loopback() {
    let (q, v, m) = (qqwry(), ipv6wry(), IpMatcher::new().unwrap());
    let mut cache = GeoCache::new(1000);
    let line = "from 10.1.2.3 via 127.0.0.1 and 192.168.0.1 to 1.1.1.1!";
    let facts = vec![
        local_facts(v4(10, 1, 2, 3)),
        local_facts(v4(127, 0, 0, 1)),
        local_facts(v4(192, 168, 0, 1)),
        local_facts(v4(1, 1, 1, 1)),
    ];
    let out = transform_line(line, &m, &facts, &q, &v, &mut cache).unwrap();
    assert_eq!(out, "from 10.1.2.3 via 127.0.0.1 and 192.168.0.1 to 1.1.1.1(澳大利亚 APNIC/CloudFlare公共DNS服务器)!");
}

#[test]
fn transform_line_leaves_plain_text() {
    let (q, v, m) = (qqwry(), ipv6wry(), IpMatcher::new().unwrap());
    let mut cache = GeoCache::new(1000);
    let out = transform_line("nothing to see", &m, &vec![], &q, &v, &mut cache).unwrap();
    assert_eq!(out, "nothing to see");
    let out = transform_line("", &m, &vec![], &q, &v, &mut cache).unwrap();
    assert_eq!(out, "");
}

#[test]
fn transform_line_without_note() {
    // maxmind lookups that found nothing: no parentheses
    let (q, v, m) = (qqwry(), ipv6wry(), IpMatcher::new().unwrap());
    let mut cache = GeoCache::new(1000);
    let facts = vec![IpFacts { addr: v4(8, 8, 8, 8), maxmind: Some(MaxmindRecord { asn: None, city: None }) }];
    let out = transform_line("8.8.8.8", &m, &facts, &q, &v, &mut cache).unwrap();
    assert_eq!(out, "8.8.8.8");
}

#[test]
fn transform_line_fact_count_mismatch() {
    let (q, v, m) = (qqwry(), ipv6wry(), IpMatcher::new().unwrap());
    let mut cache = GeoCache::new(1000);
    let r = transform_line("1.1.1.1", &m, &vec![], &q, &v, &mut cache);
    assert_eq!(r.err(), Some(MarkupError::FactCount));
}

#[test]
fn transform_line_database_error() {
    let (v, m) = (ipv6wry(), IpMatcher::new().unwrap());
    let mut d = vec![0u8; 8];
    d[0..4].copy_from_slice(&100u32.to_le_bytes());
    d[4..8].copy_from_slice(&100u32.to_le_bytes());
    let q = QQWryParser::new(d).unwrap();
    let mut cache = GeoCache::new(1000);
    let r = transform_line("1.1.1.1", &m, &vec![local_facts(v4(1, 1, 1, 1))], &q, &v, &mut cache);
    assert_eq!(r.err(), Some(MarkupError::Database(ipmark::DbError::Corrupt)));
}

#[test]
fn transform_line_uses_cached_note() {
    let (q, v, m) = (qqwry(), ipv6wry(), IpMatcher::new().unwrap());
    let mut cache = GeoCache::new(1000);
    cache.put("1.1.1.1".to_string(), "cached".to_string());
    let out = transform_line("1.1.1.1", &m, &vec![local_facts(v4(1, 1, 1, 1))], &q, &v, &mut cache).unwrap();
    assert_eq!(out, "1.1.1.1(cached)");
}

#[test]
fn transform_line_caches_notes() {
    let (q, v, m) = (qqwry(), ipv6wry(), IpMatcher::new().unwrap());
    let mut cache = GeoCache::new(1000);
    let facts = vec![IpFacts { addr: v4(1, 1, 1, 1), maxmind: Some(cloudflare_maxmind()) }];
    transform_line("1.1.1.1", &m, &facts, &q, &v, &mut cache).unwrap();
    assert_eq!(cache.get("1.1.1.1"), Some("AS13335 Cloudflare, Inc. Australia".to_string()));
}

#[test]
fn cache_gives_same_line_as_no_cache() {
    let (q, v, m) = (qqwry(), ipv6wry(), IpMatcher::new().unwrap());
    let line = "1.1.1.1 2001:470:0:1f9::2 1.1.1.1 0.1.0.1";
    let facts = vec![
        local_facts(v4(1, 1, 1, 1)),
        local_facts(he_v6()),
        local_facts(v4(1, 1, 1, 1)),
        local_facts(v4(0, 1, 0, 1)),
    ];
    let mut warm = GeoCache::new(2);
    let first = transform_line(line, &m, &facts, &q, &v, &mut warm).unwrap();
    let second = transform_line(line, &m, &facts, &q, &v, &mut warm).unwrap();
    let mut cold = GeoCache::new(1);
    let third = transform_line(line, &m, &facts, &q, &v, &mut cold).unwrap();
    assert_eq!(first, second);
    assert_eq!(first, third);
}

#[test]
fn geo_cache_is_lru() {
    let mut c = GeoCache::new(2);
    c.put("a".to_string(), "1".to_string());
    c.put("b".to_string(), "2".to_string());
    assert_eq!(c.get("a"), Some("1".to_string()));
    c.put("c".to_string(), "3".to_string());
    assert_eq!(c.get("b"), None);
    assert_eq!(c.get("a"), Some("1".to_string()));
    assert_eq!(c.get("c"), Some("3".to_string()));
    c.put("a".to_string(), "4".to_string());
    assert_eq!(c.get("a"), Some("4".to_string()));
}

#[test]
fn lookup_ip_note_is_trimmed() {
    let (q, v) = (qqwry(), ipv6wry());
    let facts = IpFacts {
        addr: v4(9, 9, 9, 9),
        maxmind: Some(MaxmindRecord {
            asn: None,
            city: Some(CityRecord { country: Some("\tLand".to_string()), city: Some("Town\n".to_string()) }),
        }),
    };
    let note = lookup_ip("9.9.9.9", &facts, &q, &v).unwrap();
    assert_eq!(note, "Land Town");
    assert_eq!(note.trim(), note);
}
