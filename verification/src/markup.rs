//! Markup of the IP addresses in a line of text with their geo-locations.
//!
//! The addresses are found with a regular expression.  Each one that is a
//! public address is followed by its location in parentheses; locations
//! come from the QQWry database (IPv4), the IPDB database (IPv6) or, when
//! MaxMind lookups are in use, from the MaxMind records that the caller
//! looked up, and are kept in an LRU cache keyed by the address text.

use crate::error::DbError;
use crate::ipv6wry::{ipdb_lookup, IPv6WryParser, IpAddr};
use crate::qqwry::{qq_lookup, QQWryParser};
use crate::text::{
    is_white_space, lemma_replace_all_keeps_front, lemma_trim_end_keeps_front, trim_start,
    lemma_blank_line_breaks_trimmed, blank_line_breaks, blank_line_breaks_text, decimal, decimal_text, replace_all, replace_text,
    trim, trim_to_string,
};
use ipaddress::IPAddress;
use lru::LruCache;
use regex::Regex;
use std::num::NonZeroUsize;
use vstd::prelude::*;

verus! {

// The outside types that the library holds; their contents stay opaque.
#[verifier::external_type_specification]
#[verifier::external_body]
pub struct ExIPAddress(IPAddress);

#[verifier::external_type_specification]
#[verifier::external_body]
pub struct ExDefaultHasher(lru::DefaultHasher);

#[verifier::external_type_specification]
#[verifier::external_body]
#[verifier::reject_recursive_types(K)]
#[verifier::reject_recursive_types(V)]
#[verifier::reject_recursive_types(S)]
pub struct ExLruCache<K, V, S>(LruCache<K, V, S>);

/// The pattern of the addresses: dotted IPv4 addresses, full IPv6 addresses
/// and IPv6 addresses with `::`, each between word boundaries.
pub const IP_PATTERN: &'static str = r"(?x)
    \b
    (?:
        (?:(?:25[0-5]|2[0-4][0-9]|[01]?[0-9][0-9]?)\.){3}(?:25[0-5]|2[0-4][0-9]|[01]?[0-9][0-9]?) # IPv4
        |
        (?:[0-9a-fA-F]{1,4}:){7}[0-9a-fA-F]{1,4} # IPv6
        |
        (?:(?:[0-9a-fA-F]{1,4}:){0,6}[0-9a-fA-F]{1,4})?::(?:(?:[0-9a-fA-F]{1,4}:){0,6}[0-9a-fA-F]{1,4})? # IPv6 compressed
    )
    \b";

/// The texts of the successive non-overlapping matches of the regular
/// expression `pattern` in `hay`, as `Regex::find_iter` yields them.
pub uninterp spec fn regex_matches(pattern: Seq<char>, hay: Seq<char>) -> Seq<Seq<char>>;

/// The texts between the matches of the regular expression `pattern` in `hay`
/// (before the first, between each two, after the last), as `Regex::split`
/// yields them.
pub uninterp spec fn regex_gaps(pattern: Seq<char>, hay: Seq<char>) -> Seq<Seq<char>>;

/// Whether `ipaddress::IPAddress::parse` accepts `text`.
pub uninterp spec fn ipaddress_accepts(text: Seq<char>) -> bool;

/// `IPAddress::is_private` of the address that `text` parses to.
pub uninterp spec fn ipaddress_private(text: Seq<char>) -> bool;

/// `IPAddress::is_loopback` of the address that `text` parses to.
pub uninterp spec fn ipaddress_loopback(text: Seq<char>) -> bool;

/// The entries of an LRU cache as (key, value), most recently used first.
pub uninterp spec fn lru_entries(c: LruCache<String, String>) -> Seq<(Seq<char>, Seq<char>)>;

/// The capacity that an LRU cache was made with.
pub uninterp spec fn lru_capacity(c: LruCache<String, String>) -> nat;

/// The gaps and matches put back together, each match followed by its note.
pub open spec fn weave(
    gaps: Seq<Seq<char>>,
    matches: Seq<Seq<char>>,
    notes: Seq<Seq<char>>,
    i: int,
) -> Seq<char>
    decreases matches.len() - i,
{
    if i >= matches.len() {
        gaps[matches.len() as int]
    } else {
        gaps[i] + matches[i] + notes[i] + weave(gaps, matches, notes, i + 1)
    }
}

/// `n` empty notes.
pub open spec fn no_notes(n: nat) -> Seq<Seq<char>> {
    Seq::new(n, |i: int| Seq::<char>::empty())
}

/// Whether `Regex::new` accepts `pattern`.
pub uninterp spec fn regex_compiles(pattern: Seq<char>) -> bool;

/// Whether `Regex::new(pattern)` succeeds.  The contract claims that this is
/// a function of the pattern; which patterns compile is not stated.
#[verifier::external_body]
fn pattern_compiles(pattern: &str) -> (b: bool)
    ensures
        b == regex_compiles(pattern@),
{
    Regex::new(pattern).is_ok()
}

/// `Regex::new(pattern)` then `Regex::find_iter` on `hay`: the texts of the
/// matches.  The pattern is compiled anew on each call.
#[verifier::external_body]
fn find_match_texts(pattern: &str, hay: &str) -> (r: Vec<String>)
    requires
        regex_compiles(pattern@),
    ensures
        r@.map_values(|t: String| t@) == regex_matches(pattern@, hay@),
{
    Regex::new(pattern).unwrap().find_iter(hay).map(|m| m.as_str().to_string()).collect()
}

/// `Regex::new(pattern)` then `Regex::split` on `hay`: the texts between the
/// matches.  The pattern is compiled anew on each call.  The contract
/// claims, as the crate's source shows (each piece is the text from the end
/// of one match to the start of the next), that there is one piece more
/// than there are matches and that pieces and matches put together in turn
/// give back `hay`.
#[verifier::external_body]
fn split_texts(pattern: &str, hay: &str) -> (r: Vec<String>)
    requires
        regex_compiles(pattern@),
    ensures
        r@.map_values(|t: String| t@) == regex_gaps(pattern@, hay@),
        r@.len() == regex_matches(pattern@, hay@).len() + 1,
        weave(
            r@.map_values(|t: String| t@),
            regex_matches(pattern@, hay@),
            no_notes(regex_matches(pattern@, hay@).len()),
            0,
        ) == hay@,
{
    Regex::new(pattern).unwrap().split(hay).map(|t| t.to_string()).collect()
}

/// A parsed `ipaddress::IPAddress` with the text it was parsed from.
struct ParsedIp {
    text: String,
    addr: IPAddress,
}

impl ParsedIp {
    spec fn source(&self) -> Seq<char> {
        self.text@
    }
}

/// `IPAddress::parse(text)`, `None` where it fails.  The contract claims
/// that the outcome is a function of the text; the crate parses the texts
/// that the address pattern matches without panicking.
#[verifier::external_body]
fn parse_ipaddress(text: &str) -> (r: Option<ParsedIp>)
    requires
        exists|hay: Seq<char>| regex_matches(IP_PATTERN@, hay).contains(text@),
    ensures
        r is Some <==> ipaddress_accepts(text@),
        r matches Some(p) ==> p.source() == text@,
{
    match IPAddress::parse(text) {
        Ok(addr) => Some(ParsedIp { text: text.to_string(), addr }),
        Err(_) => None,
    }
}

/// `IPAddress::is_private`, claimed to be a function of the parsed text.
#[verifier::external_body]
fn ipaddress_is_private(p: &ParsedIp) -> (b: bool)
    ensures
        b == ipaddress_private(p.source()),
{
    p.addr.is_private()
}

/// `IPAddress::is_loopback`, claimed to be a function of the parsed text.
#[verifier::external_body]
fn ipaddress_is_loopback(p: &ParsedIp) -> (b: bool)
    ensures
        b == ipaddress_loopback(p.source()),
{
    p.addr.is_loopback()
}

/// Finds the addresses in a line of text: the matches of `IP_PATTERN`.
pub struct IpMatcher {
    pattern: &'static str,
}

impl IpMatcher {
    /// The matcher searches with `IP_PATTERN`, which compiles.
    #[verifier::type_invariant]
    spec fn wf(self) -> bool {
        &&& self.pattern@ == IP_PATTERN@
        &&& regex_compiles(IP_PATTERN@)
    }

    /// A matcher for `IP_PATTERN`: `None` where the regex crate rejects it.
    pub fn new() -> (r: Option<IpMatcher>)
        ensures
            r is Some <==> regex_compiles(IP_PATTERN@),
    {
        if pattern_compiles(IP_PATTERN) {
            Some(IpMatcher { pattern: IP_PATTERN })
        } else {
            None
        }
    }

    /// The texts of the addresses in `line`, in order.
    pub fn ip_texts(&self, line: &str) -> (r: Vec<String>)
        ensures
            r@.map_values(|t: String| t@) == regex_matches(IP_PATTERN@, line@),
    {
        proof {
            use_type_invariant(self);
        }
        find_match_texts(self.pattern, line)
    }
}

// ---------------------------------------------------------------------------
// The LRU cache

/// Whether no key occurs twice among `es`.
pub open spec fn keys_distinct(es: Seq<(Seq<char>, Seq<char>)>) -> bool {
    forall|i: int, j: int| 0 <= i < j < es.len() ==> #[trigger] es[i].0 != #[trigger] es[j].0
}

/// The position of the first entry with key `k`.
pub open spec fn entry_of(es: Seq<(Seq<char>, Seq<char>)>, k: Seq<char>) -> Option<int>
    decreases es.len(),
{
    if es.len() == 0 {
        None
    } else if es[0].0 == k {
        Some(0)
    } else {
        match entry_of(es.drop_first(), k) {
            Some(i) => Some(i + 1),
            None => None,
        }
    }
}

/// The entries with entry `i` moved to the front.
pub open spec fn promote(es: Seq<(Seq<char>, Seq<char>)>, i: int) -> Seq<(Seq<char>, Seq<char>)> {
    seq![es[i]] + es.remove(i)
}

/// The entries after `k` is put with value `v`: the entry moves to the front
/// with its new value; a new entry goes to the front, the least recently used
/// one leaving where the cache is full.
pub open spec fn lru_put_entries(
    es: Seq<(Seq<char>, Seq<char>)>,
    cap: nat,
    k: Seq<char>,
    v: Seq<char>,
) -> Seq<(Seq<char>, Seq<char>)> {
    match entry_of(es, k) {
        Some(i) => seq![(k, v)] + es.remove(i),
        None => if es.len() >= cap {
            seq![(k, v)] + es.drop_last()
        } else {
            seq![(k, v)] + es
        },
    }
}

/// `LruCache::new` with capacity `capacity`.
#[verifier::external_body]
fn lru_new(capacity: usize) -> (c: LruCache<String, String>)
    requires
        capacity > 0,
    ensures
        lru_entries(c) == Seq::<(Seq<char>, Seq<char>)>::empty(),
        lru_capacity(c) == capacity,
{
    LruCache::new(NonZeroUsize::new(capacity).unwrap())
}

/// `LruCache::get`, the value cloned: the value of `key`, whose entry
/// becomes the most recently used.  The call does not panic.
#[verifier::external_body]
fn lru_get(c: &mut LruCache<String, String>, key: &str) -> (r: Option<String>)
    requires
        keys_distinct(lru_entries(*old(c))),
    ensures
        lru_capacity(*final(c)) == lru_capacity(*old(c)),
        match entry_of(lru_entries(*old(c)), key@) {
            Some(i) => r matches Some(v) && v@ == lru_entries(*old(c))[i].1 && lru_entries(*final(c))
                == promote(lru_entries(*old(c)), i),
            None => r is None && lru_entries(*final(c)) == lru_entries(*old(c)),
        },
    no_unwind
{
    c.get(key).cloned()
}

/// `LruCache::put` of `key` with `value` (see `lru_put_entries`).  The call
/// does not panic.
#[verifier::external_body]
fn lru_put(c: &mut LruCache<String, String>, key: String, value: String)
    requires
        keys_distinct(lru_entries(*old(c))),
        lru_entries(*old(c)).len() <= lru_capacity(*old(c)),
    ensures
        lru_capacity(*final(c)) == lru_capacity(*old(c)),
        lru_entries(*final(c)) == lru_put_entries(
            lru_entries(*old(c)),
            lru_capacity(*old(c)),
            key@,
            value@,
        ),
    no_unwind
{
    c.put(key, value);
}

/// Cache of the notes of addresses, by address text.
pub struct GeoCache {
    lru: LruCache<String, String>,
}

impl GeoCache {
    #[verifier::type_invariant]
    spec fn wf(self) -> bool {
        &&& keys_distinct(lru_entries(self.lru))
        &&& lru_entries(self.lru).len() <= lru_capacity(self.lru)
        &&& lru_capacity(self.lru) > 0
    }

    /// The cached (address text, note), most recently used first.
    pub closed spec fn entries(&self) -> Seq<(Seq<char>, Seq<char>)> {
        lru_entries(self.lru)
    }

    /// How many entries the cache keeps.
    pub closed spec fn capacity(&self) -> nat {
        lru_capacity(self.lru)
    }

    /// An empty cache that keeps `capacity` entries.
    pub fn new(capacity: usize) -> (r: GeoCache)
        requires
            capacity > 0,
        ensures
            r.entries() == Seq::<(Seq<char>, Seq<char>)>::empty(),
            r.capacity() == capacity,
    {
        GeoCache { lru: lru_new(capacity) }
    }

    /// The note cached for `key`, whose entry becomes the most recently
    /// used.
    pub fn get(&mut self, key: &str) -> (r: Option<String>)
        ensures
            final(self).capacity() == old(self).capacity(),
            match entry_of(old(self).entries(), key@) {
                Some(i) => r matches Some(v) && v@ == old(self).entries()[i].1
                    && final(self).entries() == promote(old(self).entries(), i),
                None => r is None && final(self).entries() == old(self).entries(),
            },
    {
        proof {
            use_type_invariant(&*self);
        }
        let ghost es = lru_entries(self.lru);
        proof {
            lemma_entry_of(es, key@);
            if let Some(i) = entry_of(es, key@) {
                lemma_promote_distinct(es, i);
            }
        }
        lru_get(&mut self.lru, key)
    }

    /// Caches `value` as the note of `key` (see `lru_put_entries`).
    pub fn put(&mut self, key: String, value: String)
        ensures
            final(self).capacity() == old(self).capacity(),
            final(self).entries() == lru_put_entries(
                old(self).entries(),
                old(self).capacity(),
                key@,
                value@,
            ),
    {
        proof {
            use_type_invariant(&*self);
            lemma_put_distinct(lru_entries(self.lru), lru_capacity(self.lru), key@, value@);
        }
        lru_put(&mut self.lru, key, value);
    }
}

proof fn lemma_entry_of(es: Seq<(Seq<char>, Seq<char>)>, k: Seq<char>)
    ensures
        entry_of(es, k) matches Some(i) ==> 0 <= i < es.len() && es[i].0 == k,
        entry_of(es, k) is None ==> forall|j: int| 0 <= j < es.len() ==> #[trigger] es[j].0 != k,
    decreases es.len(),
{
    if es.len() > 0 && es[0].0 != k {
        lemma_entry_of(es.drop_first(), k);
        assert forall|j: int| 1 <= j < es.len() implies es[j] == es.drop_first()[j - 1] by {}
    }
}

proof fn lemma_promote_distinct(es: Seq<(Seq<char>, Seq<char>)>, i: int)
    requires
        keys_distinct(es),
        0 <= i < es.len(),
    ensures
        keys_distinct(promote(es, i)),
        promote(es, i).len() == es.len(),
{
    let p = promote(es, i);
    assert forall|a: int, b: int| 0 <= a < b < p.len() implies #[trigger] p[a].0 != #[trigger] p[b].0 by {
        let ia = if a == 0 { i } else if a - 1 < i { a - 1 } else { a };
        let ib = if b - 1 < i { b - 1 } else { b };
        assert(p[a] == es[ia]);
        assert(p[b] == es[ib]);
        assert(ia != ib);
    }
}

proof fn lemma_put_distinct(es: Seq<(Seq<char>, Seq<char>)>, cap: nat, k: Seq<char>, v: Seq<char>)
    requires
        keys_distinct(es),
        es.len() <= cap,
        cap > 0,
    ensures
        keys_distinct(lru_put_entries(es, cap, k, v)),
        lru_put_entries(es, cap, k, v).len() <= cap,
{
    lemma_entry_of(es, k);
    let p = lru_put_entries(es, cap, k, v);
    match entry_of(es, k) {
        Some(i) => {
            assert forall|a: int, b: int| 0 <= a < b < p.len() implies #[trigger] p[a].0
                != #[trigger] p[b].0 by {
                let ib = if b - 1 < i { b - 1 } else { b };
                assert(p[b] == es[ib]);
                if a > 0 {
                    let ia = if a - 1 < i { a - 1 } else { a };
                    assert(p[a] == es[ia]);
                }
            }
        },
        None => {
            assert forall|a: int, b: int| 0 <= a < b < p.len() implies #[trigger] p[a].0
                != #[trigger] p[b].0 by {
                assert(p[b] == es[b - 1]);
                if a > 0 {
                    assert(p[a] == es[a - 1]);
                }
            }
        },
    }
}

// ---------------------------------------------------------------------------
// The note of one address

/// An autonomous-system record from a MaxMind ASN database.
#[derive(Debug, Clone)]
pub struct AsnRecord {
    pub number: Option<u32>,
    pub organization: Option<String>,
}

/// The English names from a MaxMind city database record.
#[derive(Debug, Clone)]
pub struct CityRecord {
    pub country: Option<String>,
    pub city: Option<String>,
}

/// What the MaxMind databases hold for an address; `None` where a lookup
/// failed.
#[derive(Debug, Clone)]
pub struct MaxmindRecord {
    pub asn: Option<AsnRecord>,
    pub city: Option<CityRecord>,
}

/// What the caller found out about an address text: the address it
/// denotes (`None` where it is none), and, where MaxMind lookups are in
/// use, what they gave.
#[derive(Debug, Clone)]
pub struct IpFacts {
    pub addr: Option<IpAddr>,
    pub maxmind: Option<MaxmindRecord>,
}

/// Why a line could not be marked up.
#[derive(Debug, Clone, Copy, PartialEq, Eq, Structural)]
pub enum MarkupError {
    /// A lookup in a database failed.
    Database(DbError),
    /// The facts given are not one per address found in the line.
    FactCount,
}

/// The text of an optional string, empty where there is none.
pub open spec fn text_or_empty(o: Option<String>) -> Seq<char> {
    match o {
        Some(s) => s@,
        None => Seq::empty(),
    }
}

/// `AS<number> <organization> ` of an ASN record.
pub open spec fn asn_note(a: Option<AsnRecord>) -> Seq<char> {
    match a {
        Some(r) => seq!['A', 'S'] + decimal(
            match r.number {
                Some(n) => n as nat,
                None => 0,
            },
        ) + seq![' '] + text_or_empty(r.organization) + seq![' '],
        None => Seq::empty(),
    }
}

/// `<country> <city> ` of a city record, where either is known.
pub open spec fn city_note(c: Option<CityRecord>) -> Seq<char> {
    match c {
        Some(r) => if text_or_empty(r.country).len() > 0 || text_or_empty(r.city).len() > 0 {
            text_or_empty(r.country) + seq![' '] + text_or_empty(r.city) + seq![' ']
        } else {
            Seq::empty()
        },
        None => Seq::empty(),
    }
}

/// The text that QQWry's placeholder area carries.
pub open spec fn cz88_marker() -> Seq<char> {
    seq![' ', 'C', 'Z', '8', '8', '.', 'N', 'E', 'T']
}

/// `<country> <area>` of a QQWry location, where either is known, without
/// QQWry's placeholder ` CZ88.NET`.
pub open spec fn qqwry_note(loc: Option<(Seq<char>, Seq<char>)>) -> Seq<char> {
    let text = match loc {
        Some((country, area)) => if country.len() > 0 || area.len() > 0 {
            country + seq![' '] + area
        } else {
            Seq::empty()
        },
        None => Seq::empty(),
    };
    replace_all(text, cz88_marker(), Seq::empty())
}

/// The note of the address text `ip`: from the MaxMind records where there
/// are any, else from QQWry (IPv4) or IPDB (IPv6); trimmed, with line feeds
/// and tabs blanked; empty where the text is no address.
pub open spec fn geo_note(ip: Seq<char>, facts: IpFacts, qq: QQWryParser, v6: IPv6WryParser) -> Result<
    Seq<char>,
    (),
> {
    match facts.addr {
        None => Ok(Seq::empty()),
        Some(addr) => match facts.maxmind {
            Some(m) => Ok(blank_line_breaks(trim(asn_note(m.asn) + city_note(m.city)))),
            None => match addr {
                IpAddr::V4(_) => match qq_lookup(qq.bytes(), qq.first_index(), qq.last_index(), ip) {
                    Ok(loc) => Ok(blank_line_breaks(trim(qqwry_note(loc)))),
                    Err(_) => Err(()),
                },
                IpAddr::V6(_) => match ipdb_lookup(
                    v6.bytes(),
                    v6.index_base(),
                    v6.record_count(),
                    v6.version(),
                    v6.segments(),
                    addr,
                ) {
                    Ok(Some(s)) => Ok(blank_line_breaks(trim(s))),
                    Ok(None) => Ok(Seq::empty()),
                    Err(_) => Err(()),
                },
            },
        },
    }
}

/// Appends `o`, if any, to `r`.
fn append_opt(r: &mut String, o: &Option<String>)
    ensures
        final(r)@ == old(r)@ + text_or_empty(*o),
{
    match o {
        Some(s) => r.append(s.as_str()),
        None => {
            assert(old(r)@ + Seq::<char>::empty() =~= old(r)@);
        },
    }
}

/// The note of the address text `ip` (see `geo_note`); `Err` where a
/// database lookup fails.
pub fn lookup_ip(ip: &str, facts: &IpFacts, qqwry: &QQWryParser, ipv6wry: &IPv6WryParser) -> (r:
    Result<String, DbError>)
    ensures
        match r {
            Ok(s) => geo_note(ip@, *facts, *qqwry, *ipv6wry) == Ok::<_, ()>(s@),
            Err(_) => geo_note(ip@, *facts, *qqwry, *ipv6wry) is Err,
        },
{
    proof {
        reveal_strlit(" ");
        reveal_strlit("AS");
        reveal_strlit(" CZ88.NET");
        reveal_strlit("");
    }
    assert(" CZ88.NET"@ =~= cz88_marker());
    assert(""@ =~= Seq::<char>::empty());
    let mut result = String::new();
    match &facts.addr {
        None => {},
        Some(addr) => match &facts.maxmind {
            Some(m) => {
                if let Some(a) = &m.asn {
                    let n = match a.number {
                        Some(n) => n,
                        None => 0,
                    };
                    result.append("AS");
                    result.append(decimal_text(n).as_str());
                    result.append(" ");
                    append_opt(&mut result, &a.organization);
                    result.append(" ");
                }
                assert(result@ =~= asn_note(m.asn));
                if let Some(c) = &m.city {
                    let has_country = match &c.country {
                        Some(s) => !s.as_str().is_empty(),
                        None => false,
                    };
                    let has_city = match &c.city {
                        Some(s) => !s.as_str().is_empty(),
                        None => false,
                    };
                    if has_country || has_city {
                        append_opt(&mut result, &c.country);
                        result.append(" ");
                        append_opt(&mut result, &c.city);
                        result.append(" ");
                    }
                }
                assert(result@ =~= asn_note(m.asn) + city_note(m.city));
            },
            None => match addr {
                IpAddr::V4(_) => {
                    match qqwry.checked_lookup(ip) {
                        Ok(Some(loc)) => {
                            if !loc.country.as_str().is_empty() || !loc.area.as_str().is_empty() {
                                result.append(loc.country.as_str());
                                result.append(" ");
                                result.append(loc.area.as_str());
                            }
                            assert(result@ =~= (if loc.country@.len() > 0 || loc.area@.len() > 0 {
                                loc.country@ + seq![' '] + loc.area@
                            } else {
                                Seq::empty()
                            }));
                        },
                        Ok(None) => {},
                        Err(e) => return Err(e),
                    }
                    result = replace_text(result.as_str(), " CZ88.NET", "");
                },
                IpAddr::V6(_) => {
                    match ipv6wry.checked_lookup(*addr) {
                        Ok(Some(s)) => {
                            result.append(s.as_str());
                            assert(result@ =~= s@);
                        },
                        Ok(None) => {},
                        Err(e) => return Err(e),
                    }
                },
            },
        },
    }
    let trimmed = trim_to_string(result.as_str());
    assert(trim(Seq::<char>::empty()) =~= Seq::<char>::empty());
    assert(blank_line_breaks(Seq::<char>::empty()) =~= Seq::<char>::empty());
    Ok(blank_line_breaks_text(trimmed.as_str()))
}

/// A note never holds a line feed or a tab, so marking up keeps each line
/// a single line.
pub proof fn lemma_note_is_single_line(
    t: Seq<char>,
    facts: IpFacts,
    qq: QQWryParser,
    v6: IPv6WryParser,
)
    ensures
        geo_note(t, facts, qq, v6) matches Ok(note) ==> forall|i: int|
            0 <= i < note.len() ==> #[trigger] note[i] != '\n' && note[i] != '\t',
{
}

/// A note has no leading or trailing whitespace: it is its own trim.
pub proof fn lemma_note_is_trimmed(t: Seq<char>, facts: IpFacts, qq: QQWryParser, v6: IPv6WryParser)
    ensures
        geo_note(t, facts, qq, v6) matches Ok(note) ==> trim(note) == note,
{
    assert(trim(Seq::<char>::empty()) =~= Seq::<char>::empty());
    match facts.addr {
        None => {},
        Some(addr) => match facts.maxmind {
            Some(m) => lemma_blank_line_breaks_trimmed(asn_note(m.asn) + city_note(m.city)),
            None => match addr {
                IpAddr::V4(_) => match qq_lookup(qq.bytes(), qq.first_index(), qq.last_index(), t) {
                    Ok(loc) => lemma_blank_line_breaks_trimmed(qqwry_note(loc)),
                    Err(_) => {},
                },
                IpAddr::V6(_) => match ipdb_lookup(
                    v6.bytes(),
                    v6.index_base(),
                    v6.record_count(),
                    v6.version(),
                    v6.segments(),
                    addr,
                ) {
                    Ok(Some(s)) => lemma_blank_line_breaks_trimmed(s),
                    _ => {},
                },
            },
        },
    }
}

/// A QQWry location with a country keeps that country in front of its
/// note, whatever its area: where the country is not empty, has no
/// whitespace at either end and holds no ` CZ88.NET`, the note starts with
/// the country, its line feeds and tabs blanked.  Where the database has no
/// location for the address, or one with neither country nor area, the note
/// is empty.
pub proof fn lemma_qqwry_note_keeps_country(
    ip: Seq<char>,
    facts: IpFacts,
    qq: QQWryParser,
    v6: IPv6WryParser,
    country: Seq<char>,
    area: Seq<char>,
)
    requires
        facts.addr matches Some(IpAddr::V4(_)),
        facts.maxmind is None,
    ensures
        qq_lookup(qq.bytes(), qq.first_index(), qq.last_index(), ip) == Ok::<_, ()>(
            Some((country, area)),
        ) && country.len() > 0 && !is_white_space(country[0]) && !is_white_space(country.last())
            && (forall|i: int|
            0 <= i && i + 9 <= country.len() ==> #[trigger] country.subrange(i, i + 9) != cz88_marker())
            ==> (geo_note(ip, facts, qq, v6) matches Ok(note) && note.len() >= country.len()
            && note.take(country.len() as int) == blank_line_breaks(country)),
        qq_lookup(qq.bytes(), qq.first_index(), qq.last_index(), ip) == Ok::<_, ()>(
            Some((Seq::<char>::empty(), Seq::<char>::empty())),
        ) ==> geo_note(ip, facts, qq, v6) == Ok::<_, ()>(Seq::<char>::empty()),
        qq_lookup(qq.bytes(), qq.first_index(), qq.last_index(), ip) == Ok::<
            Option<(Seq<char>, Seq<char>)>,
            (),
        >(None) ==> geo_note(ip, facts, qq, v6) == Ok::<_, ()>(Seq::<char>::empty()),
{
    let m = cz88_marker();
    assert(trim(Seq::<char>::empty()) =~= Seq::<char>::empty());
    assert(blank_line_breaks(Seq::<char>::empty()) =~= Seq::<char>::empty());
    assert(replace_all(Seq::<char>::empty(), m, Seq::empty()) == Seq::<char>::empty());
    if qq_lookup(qq.bytes(), qq.first_index(), qq.last_index(), ip) == Ok::<_, ()>(
        Some((country, area)),
    ) && country.len() > 0 && !is_white_space(country[0]) && !is_white_space(country.last())
        && (forall|i: int|
        0 <= i && i + 9 <= country.len() ==> #[trigger] country.subrange(i, i + 9) != cz88_marker()) {
        let y = seq![' '] + area;
        let text = country + y;
        assert(country + seq![' '] + area =~= text);
        assert forall|i: int|
            0 <= i < country.len() implies !(0 < m.len() && i + m.len() <= (country + y).len()
            && #[trigger] (country + y).subrange(i, i + m.len()) == m) by {
            if i + m.len() <= (country + y).len() && (country + y).subrange(i, i + m.len()) == m {
                if i + 9 <= country.len() {
                    assert(text.subrange(i, i + 9) =~= country.subrange(i, i + 9));
                } else {
                    let k = country.len() - i;
                    assert(1 <= k < 9);
                    assert(text[country.len() as int] == ' ');
                    assert(text.subrange(i, i + 9)[k] == text[country.len() as int]);
                    assert(m[1] != ' ' && m[2] != ' ' && m[3] != ' ' && m[4] != ' ' && m[5] != ' '
                        && m[6] != ' ' && m[7] != ' ' && m[8] != ' ');
                }
            }
        }
        lemma_replace_all_keeps_front(country, y, m, Seq::empty());
        let r = replace_all(y, m, Seq::empty());
        assert(trim_start(country + r) == country + r);
        lemma_trim_end_keeps_front(country, r);
        let t = trim(country + r);
        assert(blank_line_breaks(t).take(country.len() as int) =~= blank_line_breaks(country));
    }
}

// ---------------------------------------------------------------------------
// Marking up a line

/// Whether the address text is left without note: `ipaddress` rejects it,
/// or it is a private or loopback address.
pub open spec fn ip_skipped(t: Seq<char>) -> bool {
    !ipaddress_accepts(t) || ipaddress_private(t) || ipaddress_loopback(t)
}

/// `(t)`.
pub open spec fn parenthesized(t: Seq<char>) -> Seq<char> {
    seq!['('] + t + seq![')']
}

/// The note that follows the address text `t` and the cache entries after
/// it: none for a skipped address; the cached note where there is one;
/// else the looked-up note, cached where it is not empty.
pub open spec fn note_step(
    t: Seq<char>,
    facts: IpFacts,
    qq: QQWryParser,
    v6: IPv6WryParser,
    es: Seq<(Seq<char>, Seq<char>)>,
    cap: nat,
) -> Result<(Seq<char>, Seq<(Seq<char>, Seq<char>)>), ()> {
    if ip_skipped(t) {
        Ok((Seq::empty(), es))
    } else {
        match entry_of(es, t) {
            Some(k) => Ok((parenthesized(es[k].1), promote(es, k))),
            None => match geo_note(t, facts, qq, v6) {
                Ok(note) => if note.len() > 0 {
                    Ok((parenthesized(note), lru_put_entries(es, cap, t, note)))
                } else {
                    Ok((Seq::empty(), es))
                },
                Err(_) => Err(()),
            },
        }
    }
}

/// The notes of the address texts `ms[i..]`, in turn, and the cache entries
/// after them.
pub open spec fn mark_notes(
    ms: Seq<Seq<char>>,
    facts: Seq<IpFacts>,
    qq: QQWryParser,
    v6: IPv6WryParser,
    es: Seq<(Seq<char>, Seq<char>)>,
    cap: nat,
    i: int,
) -> Result<(Seq<Seq<char>>, Seq<(Seq<char>, Seq<char>)>), ()>
    decreases ms.len() - i,
{
    if i >= ms.len() {
        Ok((Seq::empty(), es))
    } else {
        match note_step(ms[i], facts[i], qq, v6, es, cap) {
            Ok((note, es1)) => match mark_notes(ms, facts, qq, v6, es1, cap, i + 1) {
                Ok((notes, es2)) => Ok((seq![note] + notes, es2)),
                Err(_) => Err(()),
            },
            Err(_) => Err(()),
        }
    }
}

/// The gaps and matches before match `i`, each match followed by its note.
pub open spec fn weave_prefix(
    gaps: Seq<Seq<char>>,
    matches: Seq<Seq<char>>,
    notes: Seq<Seq<char>>,
    i: int,
) -> Seq<char>
    decreases i,
{
    if i <= 0 {
        Seq::empty()
    } else {
        weave_prefix(gaps, matches, notes, i - 1) + gaps[i - 1] + matches[i - 1] + notes[i - 1]
    }
}

proof fn lemma_weave_split(
    gaps: Seq<Seq<char>>,
    matches: Seq<Seq<char>>,
    notes: Seq<Seq<char>>,
    k: int,
)
    requires
        0 <= k <= matches.len(),
    ensures
        weave(gaps, matches, notes, 0) == weave_prefix(gaps, matches, notes, k) + weave(
            gaps,
            matches,
            notes,
            k,
        ),
    decreases k,
{
    if k > 0 {
        lemma_weave_split(gaps, matches, notes, k - 1);
        let w = weave(gaps, matches, notes, k);
        assert(weave(gaps, matches, notes, k - 1) == gaps[k - 1] + matches[k - 1] + notes[k - 1] + w);
        assert(weave_prefix(gaps, matches, notes, k - 1) + (gaps[k - 1] + matches[k - 1] + notes[k
            - 1] + w) =~= weave_prefix(gaps, matches, notes, k) + w);
    } else {
        assert(weave(gaps, matches, notes, 0) =~= Seq::<char>::empty() + weave(
            gaps,
            matches,
            notes,
            0,
        ));
    }
}

/// Marks up `line`: each address found in it is followed by its note in
/// parentheses (see `note_step`), the text otherwise unchanged.  `facts`
/// holds what the caller found out about each address text, one per
/// address, in order.  `FactCount` where their number does not match;
/// `Database` where a database lookup fails.
pub fn transform_line(
    line: &str,
    matcher: &IpMatcher,
    facts: &Vec<IpFacts>,
    qqwry: &QQWryParser,
    ipv6wry: &IPv6WryParser,
    cache: &mut GeoCache,
) -> (r: Result<String, MarkupError>)
    ensures
        final(cache).capacity() == old(cache).capacity(),
        line@ == weave(
            regex_gaps(IP_PATTERN@, line@),
            regex_matches(IP_PATTERN@, line@),
            no_notes(regex_matches(IP_PATTERN@, line@).len()),
            0,
        ),
        match r {
            Ok(out) => {
                &&& facts@.len() == regex_matches(IP_PATTERN@, line@).len()
                &&& mark_notes(
                    regex_matches(IP_PATTERN@, line@),
                    facts@,
                    *qqwry,
                    *ipv6wry,
                    old(cache).entries(),
                    old(cache).capacity(),
                    0,
                ) matches Ok((notes, es))
                &&& out@ == weave(regex_gaps(IP_PATTERN@, line@), regex_matches(IP_PATTERN@, line@), notes, 0)
                &&& final(cache).entries() == es
            },
            Err(MarkupError::FactCount) => facts@.len() != regex_matches(IP_PATTERN@, line@).len()
                && final(cache).entries() == old(cache).entries(),
            Err(MarkupError::Database(_)) => facts@.len() == regex_matches(IP_PATTERN@, line@).len() && mark_notes(
                regex_matches(IP_PATTERN@, line@),
                facts@,
                *qqwry,
                *ipv6wry,
                old(cache).entries(),
                old(cache).capacity(),
                0,
            ) is Err,
        },
{
    proof {
        use_type_invariant(matcher);
    }
    let ms = find_match_texts(matcher.pattern, line);
    let gaps = split_texts(matcher.pattern, line);
    let ghost mv = ms@.map_values(|t: String| t@);
    let ghost gv = gaps@.map_values(|t: String| t@);
    let n = ms.len();
    if facts.len() != n {
        return Err(MarkupError::FactCount);
    }
    let ghost cap = cache.capacity();
    let ghost total = mark_notes(mv, facts@, *qqwry, *ipv6wry, cache.entries(), cap, 0);
    let ghost mut done: Seq<Seq<char>> = Seq::empty();
    let mut out = String::new();
    let mut i: usize = 0;
    assert(out@ =~= weave_prefix(gv, mv, done, 0));
    proof {
        reveal_strlit("(");
        reveal_strlit(")");
    }
    while i < n
        invariant
            n == ms@.len(),
            n == facts@.len(),
            gaps@.len() == n + 1,
            mv == ms@.map_values(|t: String| t@),
            gv == gaps@.map_values(|t: String| t@),
            mv == regex_matches(IP_PATTERN@, line@),
            gv == regex_gaps(IP_PATTERN@, line@),
            i <= n,
            done.len() == i,
            cache.capacity() == cap,
            cap == old(cache).capacity(),
            line@ == weave(gv, mv, no_notes(n as nat), 0),
            total == mark_notes(mv, facts@, *qqwry, *ipv6wry, old(cache).entries(), cap, 0),
            total == match mark_notes(mv, facts@, *qqwry, *ipv6wry, cache.entries(), cap, i as int) {
                Ok((notes, es)) => Ok::<_, ()>((done + notes, es)),
                Err(_) => Err(()),
            },
            out@ == weave_prefix(gv, mv, done, i as int),
        decreases n - i,
    {
        proof {
            reveal_strlit("(");
            reveal_strlit(")");
        }
        let ghost es = cache.entries();
        let t = ms[i].as_str();
        assert(mv[i as int] == t@);
        assert(gv[i as int] == gaps@[i as int]@);
        assert(mv.contains(t@));
        let ghost before = out@;
        out.append(gaps[i].as_str());
        out.append(t);
        let ghost step = note_step(t@, facts@[i as int], *qqwry, *ipv6wry, es, cap);
        let ghost note: Seq<char>;
        match parse_ipaddress(t) {
            None => {
                proof {
                    note = Seq::empty();
                }
            },
            Some(p) => {
                if ipaddress_is_private(&p) || ipaddress_is_loopback(&p) {
                    proof {
                        note = Seq::empty();
                    }
                } else {
                    match cache.get(t) {
                        Some(c) => {
                            out.append("(");
                            out.append(c.as_str());
                            out.append(")");
                            proof {
                                note = parenthesized(c@);
                            }
                        },
                        None => {
                            let info = match lookup_ip(t, &facts[i], qqwry, ipv6wry) {
                                Ok(info) => info,
                                Err(e) => {
                                    return Err(MarkupError::Database(e));
                                },
                            };
                            if !info.as_str().is_empty() {
                                cache.put(ms[i].clone(), info.clone());
                                out.append("(");
                                out.append(info.as_str());
                                out.append(")");
                                proof {
                                    note = parenthesized(info@);
                                }
                            } else {
                                proof {
                                    note = Seq::empty();
                                }
                            }
                        },
                    }
                }
            },
        }
        assert(step == Ok::<_, ()>((note, cache.entries())));
        assert(out@ =~= before + gv[i as int] + mv[i as int] + note);
        proof {
            let old_done = done;
            done = done.push(note);
            assert(weave_prefix(gv, mv, done, i + 1) == weave_prefix(gv, mv, done, i as int) + gv[i
                as int] + mv[i as int] + done[i as int]);
            assert(weave_prefix(gv, mv, done, i as int) == weave_prefix(gv, mv, old_done, i as int))
                by {
                lemma_weave_prefix_same(gv, mv, done, old_done, i as int);
            }
            match mark_notes(mv, facts@, *qqwry, *ipv6wry, cache.entries(), cap, i + 1) {
                Ok((notes, es2)) => {
                    assert(old_done + (seq![note] + notes) =~= done + notes);
                },
                Err(_) => {},
            }
        }
        i = i + 1;
    }
    out.append(gaps[n].as_str());
    proof {
        lemma_weave_split(gv, mv, done, n as int);
        assert(done + Seq::<Seq<char>>::empty() =~= done);
        lemma_weave_split(gv, mv, no_notes(n as nat), n as int);
    }
    Ok(out)
}

proof fn lemma_weave_prefix_same(
    gaps: Seq<Seq<char>>,
    matches: Seq<Seq<char>>,
    a: Seq<Seq<char>>,
    b: Seq<Seq<char>>,
    i: int,
)
    requires
        0 <= i <= a.len(),
        i <= b.len(),
        forall|j: int| 0 <= j < i ==> a[j] == b[j],
    ensures
        weave_prefix(gaps, matches, a, i) == weave_prefix(gaps, matches, b, i),
    decreases i,
{
    if i > 0 {
        lemma_weave_prefix_same(gaps, matches, a, b, i - 1);
    }
}

// ---------------------------------------------------------------------------
// The cache changes no note

/// Whether every cached note is the non-empty note that a lookup gives for
/// its key, the caller's facts about a text being `facts_of` it.
pub open spec fn cache_agrees(
    es: Seq<(Seq<char>, Seq<char>)>,
    facts_of: spec_fn(Seq<char>) -> IpFacts,
    qq: QQWryParser,
    v6: IPv6WryParser,
) -> bool {
    forall|k: int|
        0 <= k < es.len() ==> (#[trigger] es[k]).1.len() > 0 && geo_note(
            es[k].0,
            facts_of(es[k].0),
            qq,
            v6,
        ) == Ok::<_, ()>(es[k].1)
}

/// The note that follows the address text `t` when nothing is cached.
pub open spec fn direct_note(t: Seq<char>, facts: IpFacts, qq: QQWryParser, v6: IPv6WryParser) -> Result<
    Seq<char>,
    (),
> {
    if ip_skipped(t) {
        Ok(Seq::empty())
    } else {
        match geo_note(t, facts, qq, v6) {
            Ok(v) => Ok(
                if v.len() > 0 {
                    parenthesized(v)
                } else {
                    Seq::empty()
                },
            ),
            Err(_) => Err(()),
        }
    }
}

/// The notes of the address texts `ms[i..]` when nothing is cached.
pub open spec fn direct_notes(
    ms: Seq<Seq<char>>,
    facts: Seq<IpFacts>,
    qq: QQWryParser,
    v6: IPv6WryParser,
    i: int,
) -> Result<Seq<Seq<char>>, ()>
    decreases ms.len() - i,
{
    if i >= ms.len() {
        Ok(Seq::empty())
    } else {
        match direct_note(ms[i], facts[i], qq, v6) {
            Ok(note) => match direct_notes(ms, facts, qq, v6, i + 1) {
                Ok(notes) => Ok(seq![note] + notes),
                Err(_) => Err(()),
            },
            Err(_) => Err(()),
        }
    }
}

proof fn lemma_promote_agrees(
    es: Seq<(Seq<char>, Seq<char>)>,
    k: int,
    facts_of: spec_fn(Seq<char>) -> IpFacts,
    qq: QQWryParser,
    v6: IPv6WryParser,
)
    requires
        cache_agrees(es, facts_of, qq, v6),
        0 <= k < es.len(),
    ensures
        cache_agrees(promote(es, k), facts_of, qq, v6),
{
    let p = promote(es, k);
    assert forall|a: int| 0 <= a < p.len() implies (#[trigger] p[a]).1.len() > 0 && geo_note(
        p[a].0,
        facts_of(p[a].0),
        qq,
        v6,
    ) == Ok::<_, ()>(p[a].1) by {
        let ia = if a == 0 {
            k
        } else if a - 1 < k {
            a - 1
        } else {
            a
        };
        assert(p[a] == es[ia]);
    }
}

proof fn lemma_put_agrees(
    es: Seq<(Seq<char>, Seq<char>)>,
    cap: nat,
    t: Seq<char>,
    note: Seq<char>,
    facts_of: spec_fn(Seq<char>) -> IpFacts,
    qq: QQWryParser,
    v6: IPv6WryParser,
)
    requires
        cache_agrees(es, facts_of, qq, v6),
        cap > 0,
        note.len() > 0,
        geo_note(t, facts_of(t), qq, v6) == Ok::<_, ()>(note),
    ensures
        cache_agrees(lru_put_entries(es, cap, t, note), facts_of, qq, v6),
{
    lemma_entry_of(es, t);
    let p = lru_put_entries(es, cap, t, note);
    assert forall|a: int| 0 <= a < p.len() implies (#[trigger] p[a]).1.len() > 0 && geo_note(
        p[a].0,
        facts_of(p[a].0),
        qq,
        v6,
    ) == Ok::<_, ()>(p[a].1) by {
        if a > 0 {
            match entry_of(es, t) {
                Some(i) => {
                    let ia = if a - 1 < i {
                        a - 1
                    } else {
                        a
                    };
                    assert(p[a] == es[ia]);
                },
                None => {
                    if es.len() >= cap {
                        assert(p[a] == es.drop_last()[a - 1]);
                        assert(es.drop_last()[a - 1] == es[a - 1]);
                    } else {
                        assert(p[a] == es[a - 1]);
                    }
                },
            }
        } else {
            assert(p[0] == (t, note));
        }
    }
}

/// With a cache whose every entry holds the non-empty note that a lookup
/// gives for its key, and facts about the address texts that depend on the
/// text alone, marking up gives the notes that it gives with nothing
/// cached, fails where that fails, and leaves a cache of the same kind.
pub proof fn lemma_cache_changes_no_note(
    ms: Seq<Seq<char>>,
    facts: Seq<IpFacts>,
    facts_of: spec_fn(Seq<char>) -> IpFacts,
    qq: QQWryParser,
    v6: IPv6WryParser,
    es: Seq<(Seq<char>, Seq<char>)>,
    cap: nat,
    i: int,
)
    requires
        facts.len() == ms.len(),
        forall|j: int| 0 <= j < ms.len() ==> facts[j] == facts_of(#[trigger] ms[j]),
        cache_agrees(es, facts_of, qq, v6),
        cap > 0,
        0 <= i,
    ensures
        match mark_notes(ms, facts, qq, v6, es, cap, i) {
            Ok((notes, es2)) => direct_notes(ms, facts, qq, v6, i) == Ok::<_, ()>(notes)
                && cache_agrees(es2, facts_of, qq, v6),
            Err(_) => direct_notes(ms, facts, qq, v6, i) is Err,
        },
    decreases ms.len() - i,
{
    if i < ms.len() {
        let t = ms[i];
        assert(facts[i] == facts_of(t));
        if !ip_skipped(t) {
            lemma_entry_of(es, t);
            match entry_of(es, t) {
                Some(k) => {
                    assert(es[k].1.len() > 0);
                    lemma_promote_agrees(es, k, facts_of, qq, v6);
                },
                None => {
                    match geo_note(t, facts[i], qq, v6) {
                        Ok(note) => {
                            if note.len() > 0 {
                                lemma_put_agrees(es, cap, t, note, facts_of, qq, v6);
                            }
                        },
                        Err(_) => {},
                    }
                },
            }
        }
        match note_step(t, facts[i], qq, v6, es, cap) {
            Ok((note, es1)) => {
                lemma_cache_changes_no_note(ms, facts, facts_of, qq, v6, es1, cap, i + 1);
            },
            Err(_) => {},
        }
    }
}

} // verus!
