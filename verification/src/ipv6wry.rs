//! Reader of the ZXInc IPDB geo-location database (`ipv6wry.db`), which
//! holds either IPv4 or IPv6 ranges.
//!
//! Layout: the signature `IPDB`, a format byte at 4, the address version at
//! 7 (4 or 8), the record count (`u64`) at 8, the index offset (`u64`) at
//! 16 and, unless the format byte is 1, the number of address segments at
//! 24.  Each index entry is the first address of a range (`u32` for IPv4,
//! the upper 64 bits for IPv6) and the 24-bit offset of its record.  A
//! record is that many segments, each a NUL-terminated UTF-8 string or a
//! redirection (mode byte 2 and a 24-bit offset).

use crate::bytes::{byte_len, le_u24, le_u32, le_u64, read_le_u24, read_le_u32_at, read_le_u64, read_le_u64_at};
use crate::error::DbError;
use crate::text::{decode_utf8_lossy, join, join_with_spaces, trim, trim_to_string, utf8_lossy, MAX_TEXT_BYTES};
use vstd::prelude::*;

verus! {

/// An IP address, given by its bytes in network order.
#[derive(Debug, Clone, Copy)]
pub enum IpAddr {
    V4([u8; 4]),
    V6([u8; 16]),
}

/// An open IPDB database.
pub struct IPv6WryParser {
    data: Vec<u8>,
    index_base_offset: u64,
    count: u64,
    ip_version: u8,
    address_segment_len: u8,
}

/// Whether `d` starts with the signature `IPDB`.
pub open spec fn has_ipdb_magic(d: Seq<u8>) -> bool {
    d.len() >= 4 && d[0] == 0x49 && d[1] == 0x50 && d[2] == 0x44 && d[3] == 0x42
}

/// Whether the header can be read from `d` without running off its end:
/// the signature, and when it matches, the fields up to the segment count.
pub open spec fn ipdb_header_fits(d: Seq<u8>) -> bool {
    &&& d.len() >= 4
    &&& has_ipdb_magic(d) ==> d.len() >= 24 && (d[4] != 1 ==> d.len() >= 25)
}

/// The number of segments per record that the header announces.
pub open spec fn ipdb_segments(d: Seq<u8>) -> u8 {
    if d[4] != 1 {
        d[24]
    } else {
        2
    }
}

/// The big-endian value of the bytes `o[0..4]`.
pub open spec fn be_u32(o: Seq<u8>) -> int {
    o[0] * 0x100_0000 + o[1] * 0x1_0000 + o[2] * 0x100 + o[3]
}

/// The key that the address is looked up by in a database of address
/// version `ver`: the IPv4 address, or the upper 64 bits of the IPv6
/// address; `None` where the address is of the other version.
pub open spec fn ipdb_needle(addr: IpAddr, ver: u8) -> Option<u64> {
    match addr {
        IpAddr::V4(o) => if ver == 4 {
            Some(be_u32(o@) as u64)
        } else {
            None
        },
        IpAddr::V6(o) => if ver == 8 {
            Some((be_u32(o@) * 0x1_0000_0000 + be_u32(o@.subrange(4, 8))) as u64)
        } else {
            None
        },
    }
}

/// The length of an index entry in a database of address version `ver`.
pub open spec fn ipdb_step(ver: u8) -> int {
    if ver == 4 {
        7
    } else {
        11
    }
}

/// Index entry `i` (key, record offset), entries being `step` bytes apart
/// from `base`; `Err` where its position overflows or it reaches past the
/// buffer.
pub open spec fn ipdb_entry(d: Seq<u8>, base: u64, ver: u8, i: int, step: int) -> Result<
    (int, int),
    (),
> {
    let p = base + i * step;
    if p > u64::MAX {
        Err(())
    } else {
        let pos = (p as usize) as int;
        if ver == 4 {
            if pos + 7 > d.len() {
                Err(())
            } else {
                Ok((le_u32(d, pos), le_u24(d, pos + 4)))
            }
        } else {
            if pos + 11 > d.len() {
                Err(())
            } else {
                Ok((le_u64(d, pos), le_u24(d, pos + 8)))
            }
        }
    }
}

/// The binary search over the entries `lo..=hi` for the last entry whose key
/// is at most `needle`, as the reader performs it; `hit` is the record
/// offset found so far.
pub open spec fn ipdb_search(
    d: Seq<u8>,
    base: u64,
    ver: u8,
    needle: u64,
    lo: int,
    hi: int,
    hit: int,
) -> Result<int, ()>
    decreases hi - lo + 1,
{
    if lo > hi {
        Ok(hit)
    } else if lo + hi > u64::MAX {
        Err(())
    } else {
        let mid = (lo + hi) / 2;
        match ipdb_entry(d, base, ver, mid, ipdb_step(ver)) {
            Err(_) => Err(()),
            Ok((key, off)) => if needle >= key {
                ipdb_search(d, base, ver, needle, mid + 1, hi, off)
            } else if mid == 0 {
                Ok(hit)
            } else {
                ipdb_search(d, base, ver, needle, lo, mid - 1, hit)
            },
        }
    }
}

/// The first position at or after `start` that holds a NUL byte or is the
/// end of the buffer.
pub open spec fn cstring_end(d: Seq<u8>, start: int) -> int
    decreases d.len() - start,
{
    if start < 0 || start >= d.len() || d[start] == 0 {
        start
    } else {
        cstring_end(d, start + 1)
    }
}

/// The string at `start` (up to a NUL byte or the end of the buffer),
/// decoded as lossy UTF-8, and the position after its terminator; offset 0
/// stands for the empty string.
pub open spec fn ipdb_read_cstring(d: Seq<u8>, start: int) -> Result<(Seq<char>, int), ()> {
    if start == 0 {
        Ok((Seq::empty(), 1))
    } else if start > d.len() {
        Err(())
    } else {
        let end = cstring_end(d, start);
        if end - start > MAX_TEXT_BYTES {
            Err(())
        } else {
            Ok((utf8_lossy(d.subrange(start, end)), end + 1))
        }
    }
}

/// `r` with the pieces `done` in front.
pub open spec fn after_parts(done: Seq<Seq<char>>, r: Result<Seq<Seq<char>>, ()>) -> Result<
    Seq<Seq<char>>,
    (),
> {
    match r {
        Ok(rest) => Ok(done + rest),
        Err(_) => Err(()),
    }
}

/// The `n` segments of the record at `pos`.
pub open spec fn ipdb_record_parts(d: Seq<u8>, pos: int, n: nat) -> Result<Seq<Seq<char>>, ()>
    decreases n,
{
    if n == 0 {
        Ok(Seq::empty())
    } else if pos < 0 || pos >= d.len() {
        Err(())
    } else if d[pos] == 2 {
        if pos + 4 > d.len() {
            Err(())
        } else {
            match ipdb_read_cstring(d, le_u24(d, pos + 1)) {
                Ok((s, _)) => after_parts(seq![s], ipdb_record_parts(d, pos + 4, (n - 1) as nat)),
                Err(_) => Err(()),
            }
        }
    } else {
        match ipdb_read_cstring(d, pos) {
            Ok((s, next)) => after_parts(seq![s], ipdb_record_parts(d, next, (n - 1) as nat)),
            Err(_) => Err(()),
        }
    }
}

/// The text of the record at `pos`: its `n` segments joined with spaces,
/// trimmed.
pub open spec fn ipdb_read_record(d: Seq<u8>, pos: int, n: nat) -> Result<Seq<char>, ()> {
    match ipdb_record_parts(d, pos, n) {
        Ok(parts) => Ok(trim(join(parts, seq![' ']))),
        Err(_) => Err(()),
    }
}

/// The text of the record for `needle`: the record of the last entry whose
/// key is at most `needle`, as the binary search finds it, or the one at the
/// index offset where the search finds none.
pub open spec fn ipdb_search_record(
    d: Seq<u8>,
    base: u64,
    count: u64,
    ver: u8,
    segs: u8,
    needle: u64,
) -> Result<Seq<char>, ()> {
    if count == 0 {
        Err(())
    } else {
        match ipdb_search(d, base, ver, needle, 0, count - 1, base as int) {
            Ok(hit) => ipdb_read_record(d, (hit as usize) as int, segs as nat),
            Err(_) => Err(()),
        }
    }
}

/// The lookup of `addr`: `Ok(None)` where the database holds addresses of
/// the other version.
pub open spec fn ipdb_lookup(
    d: Seq<u8>,
    base: u64,
    count: u64,
    ver: u8,
    segs: u8,
    addr: IpAddr,
) -> Result<Option<Seq<char>>, ()> {
    match ipdb_needle(addr, ver) {
        None => Ok(None),
        Some(needle) => match ipdb_search_record(d, base, count, ver, segs, needle) {
            Ok(s) => Ok(Some(s)),
            Err(_) => Err(()),
        },
    }
}

// ---------------------------------------------------------------------------
// What the search finds

/// The key of index entry `i`.
pub open spec fn ipdb_key(d: Seq<u8>, base: u64, ver: u8, i: int) -> int {
    ipdb_entry(d, base, ver, i, ipdb_step(ver))->Ok_0.0
}

/// The record offset of index entry `i`.
pub open spec fn ipdb_offset(d: Seq<u8>, base: u64, ver: u8, i: int) -> int {
    ipdb_entry(d, base, ver, i, ipdb_step(ver))->Ok_0.1
}

/// Whether the first `count` index entries lie inside the buffer.
pub open spec fn ipdb_entries_readable(d: Seq<u8>, base: u64, ver: u8, count: int) -> bool {
    forall|i: int| 0 <= i < count ==> #[trigger] ipdb_entry(d, base, ver, i, ipdb_step(ver)) is Ok
}

/// Whether the keys of the first `count` index entries ascend.
pub open spec fn ipdb_keys_sorted(d: Seq<u8>, base: u64, ver: u8, count: int) -> bool {
    forall|i: int, j: int|
        0 <= i <= j < count ==> #[trigger] ipdb_key(d, base, ver, i) <= #[trigger] ipdb_key(
            d,
            base,
            ver,
            j,
        )
}

/// The record offset of the last of the first `n` entries whose key is at
/// most `needle`; the index offset where there is none.
pub open spec fn ipdb_floor(d: Seq<u8>, base: u64, ver: u8, needle: u64, n: nat) -> int
    decreases n,
{
    if n == 0 {
        base as int
    } else if ipdb_key(d, base, ver, n - 1) <= needle {
        ipdb_offset(d, base, ver, n - 1)
    } else {
        ipdb_floor(d, base, ver, needle, (n - 1) as nat)
    }
}

/// The record offset that the floor gives is that of the last of the
/// first `n` entries whose key is at most `needle`, and the index offset
/// where every key exceeds `needle`.
pub proof fn lemma_floor_is_last_at_most(d: Seq<u8>, base: u64, ver: u8, needle: u64, n: nat)
    ensures
        (forall|j: int| 0 <= j < n ==> #[trigger] ipdb_key(d, base, ver, j) > needle) ==> ipdb_floor(
            d,
            base,
            ver,
            needle,
            n,
        ) == base,
        forall|j: int|
            0 <= j < n && #[trigger] ipdb_key(d, base, ver, j) <= needle && (forall|k: int|
                j < k < n ==> #[trigger] ipdb_key(d, base, ver, k) > needle) ==> ipdb_floor(
                d,
                base,
                ver,
                needle,
                n,
            ) == ipdb_offset(d, base, ver, j),
    decreases n,
{
    if n > 0 {
        lemma_floor_is_last_at_most(d, base, ver, needle, (n - 1) as nat);
    }
}

proof fn lemma_floor_skip(d: Seq<u8>, base: u64, ver: u8, needle: u64, lo: nat, n: nat)
    requires
        lo <= n,
        forall|j: int| lo <= j < n ==> #[trigger] ipdb_key(d, base, ver, j) > needle,
    ensures
        ipdb_floor(d, base, ver, needle, n) == ipdb_floor(d, base, ver, needle, lo),
    decreases n - lo,
{
    if lo < n {
        lemma_floor_skip(d, base, ver, needle, lo, (n - 1) as nat);
    }
}

proof fn lemma_search_floor(
    d: Seq<u8>,
    base: u64,
    ver: u8,
    needle: u64,
    count: int,
    lo: int,
    hi: int,
    hit: int,
)
    requires
        ipdb_entries_readable(d, base, ver, count),
        ipdb_keys_sorted(d, base, ver, count),
        2 * count <= u64::MAX,
        0 <= lo <= hi + 1,
        hi < count,
        hit == (if lo == 0 {
            base as int
        } else {
            ipdb_offset(d, base, ver, lo - 1)
        }),
        lo > 0 ==> ipdb_key(d, base, ver, lo - 1) <= needle,
        hi + 1 < count ==> ipdb_key(d, base, ver, hi + 1) > needle,
    ensures
        ipdb_search(d, base, ver, needle, lo, hi, hit) == Ok::<int, ()>(
            ipdb_floor(d, base, ver, needle, count as nat),
        ),
    decreases hi - lo + 1,
{
    if lo > hi {
        assert forall|j: int| lo <= j < count implies #[trigger] ipdb_key(d, base, ver, j)
            > needle by {
            assert(ipdb_key(d, base, ver, hi + 1) <= ipdb_key(d, base, ver, j));
        }
        lemma_floor_skip(d, base, ver, needle, lo as nat, count as nat);
    } else {
        let mid = (lo + hi) / 2;
        assert(ipdb_entry(d, base, ver, mid, ipdb_step(ver)) is Ok);
        if needle >= ipdb_key(d, base, ver, mid) {
            lemma_search_floor(
                d,
                base,
                ver,
                needle,
                count,
                mid + 1,
                hi,
                ipdb_offset(d, base, ver, mid),
            );
        } else if mid == 0 {
            assert forall|j: int| 0 <= j < count implies #[trigger] ipdb_key(d, base, ver, j)
                > needle by {
                assert(ipdb_key(d, base, ver, 0) <= ipdb_key(d, base, ver, j));
            }
            lemma_floor_skip(d, base, ver, needle, 0, count as nat);
        } else {
            lemma_search_floor(d, base, ver, needle, count, lo, mid - 1, hit);
        }
    }
}

/// On a database whose index entries lie inside the buffer and whose keys
/// ascend, the search finds the record of the last entry whose key is at
/// most the address, and the record at the index offset where every key
/// exceeds the address.
pub proof fn lemma_search_finds_floor(
    d: Seq<u8>,
    base: u64,
    ver: u8,
    segs: u8,
    needle: u64,
    count: u64,
)
    requires
        count > 0,
        ipdb_entries_readable(d, base, ver, count as int),
        ipdb_keys_sorted(d, base, ver, count as int),
    ensures
        ipdb_search(d, base, ver, needle, 0, count - 1, base as int) == Ok::<int, ()>(
            ipdb_floor(d, base, ver, needle, count as nat),
        ),
        ipdb_search_record(d, base, count, ver, segs, needle) == ipdb_read_record(
            d,
            (ipdb_floor(d, base, ver, needle, count as nat) as usize) as int,
            segs as nat,
        ),
{
    assert(ipdb_entry(d, base, ver, count - 1, ipdb_step(ver)) is Ok);
    assert(2 * count <= u64::MAX) by (nonlinear_arith)
        requires
            base + (count - 1) * ipdb_step(ver) <= u64::MAX,
            ipdb_step(ver) >= 7,
            count > 0,
    ;
    lemma_search_floor(d, base, ver, needle, count as int, 0, count - 1, base as int);
}

/// The key of an address is its value read big-endian: for an IPv6
/// address the value of its first eight bytes (its upper 64 bits), for an
/// IPv4 address the value of its four bytes.
pub proof fn lemma_needle_bytes(a: [u8; 4], o: [u8; 16])
    ensures
        ipdb_needle(IpAddr::V4(a), 4) == Some(
            (a[0] * 0x100_0000int + a[1] * 0x1_0000int + a[2] * 0x100int + a[3]) as u64,
        ),
        ipdb_needle(IpAddr::V6(o), 8) == Some(
            (o[0] * 0x100_0000_0000_0000int + o[1] * 0x1_0000_0000_0000int + o[2]
                * 0x100_0000_0000int + o[3] * 0x1_0000_0000int + o[4] * 0x100_0000int + o[5]
                * 0x1_0000int + o[6] * 0x100int + o[7]) as u64,
        ),
        ipdb_needle(IpAddr::V4(a), 8) is None,
        ipdb_needle(IpAddr::V6(o), 4) is None,
{
    assert(o@.subrange(4, 8)[0] == o[4]);
    assert(o@.subrange(4, 8)[1] == o[5]);
    assert(o@.subrange(4, 8)[2] == o[6]);
    assert(o@.subrange(4, 8)[3] == o[7]);
}

proof fn lemma_leading_digit(x: int, y: int, r: int, s: int, m: int)
    requires
        m > 0,
        0 <= r < m,
        0 <= s < m,
        x * m + r == y * m + s,
    ensures
        x == y,
        r == s,
{
    assert(x == y) by (nonlinear_arith)
        requires
            m > 0,
            0 <= r < m,
            0 <= s < m,
            x * m + r == y * m + s,
    ;
}

/// IPv6 addresses whose first eight bytes differ have different keys, so
/// each /64 prefix is looked up by its own key.
pub proof fn lemma_needle_distinct(a: [u8; 16], b: [u8; 16])
    requires
        a@.subrange(0, 8) != b@.subrange(0, 8),
    ensures
        ipdb_needle(IpAddr::V6(a), 8) != ipdb_needle(IpAddr::V6(b), 8),
{
    lemma_needle_bytes([0, 0, 0, 0], a);
    lemma_needle_bytes([0, 0, 0, 0], b);
    if ipdb_needle(IpAddr::V6(a), 8) == ipdb_needle(IpAddr::V6(b), 8) {
        let a7 = a[7] as int;
        let b7 = b[7] as int;
        let a6 = a[6] * 0x100int + a7;
        let b6 = b[6] * 0x100int + b7;
        let a5 = a[5] * 0x1_0000int + a6;
        let b5 = b[5] * 0x1_0000int + b6;
        let a4 = a[4] * 0x100_0000int + a5;
        let b4 = b[4] * 0x100_0000int + b5;
        let a3 = a[3] * 0x1_0000_0000int + a4;
        let b3 = b[3] * 0x1_0000_0000int + b4;
        let a2 = a[2] * 0x100_0000_0000int + a3;
        let b2 = b[2] * 0x100_0000_0000int + b3;
        let a1 = a[1] * 0x1_0000_0000_0000int + a2;
        let b1 = b[1] * 0x1_0000_0000_0000int + b2;
        let a0 = a[0] * 0x100_0000_0000_0000int + a1;
        let b0 = b[0] * 0x100_0000_0000_0000int + b1;
        assert(a0 == b0);
        lemma_leading_digit(a[0] as int, b[0] as int, a1, b1, 0x100_0000_0000_0000int);
        lemma_leading_digit(a[1] as int, b[1] as int, a2, b2, 0x1_0000_0000_0000int);
        lemma_leading_digit(a[2] as int, b[2] as int, a3, b3, 0x100_0000_0000int);
        lemma_leading_digit(a[3] as int, b[3] as int, a4, b4, 0x1_0000_0000int);
        lemma_leading_digit(a[4] as int, b[4] as int, a5, b5, 0x100_0000int);
        lemma_leading_digit(a[5] as int, b[5] as int, a6, b6, 0x1_0000int);
        lemma_leading_digit(a[6] as int, b[6] as int, a7, b7, 0x100int);
        assert(a@.subrange(0, 8) =~= b@.subrange(0, 8));
    }
}

/// An index entry at position `p = base + i * step` holds the key as the
/// little-endian integer in its first eight bytes (four in an IPv4
/// database) and the record offset as the 24-bit little-endian integer in
/// the three bytes after the key.
pub proof fn lemma_entry_bytes(d: Seq<u8>, base: u64, ver: u8, i: int)
    requires
        0 <= i,
        base + i * ipdb_step(ver) <= usize::MAX,
        base + i * ipdb_step(ver) + ipdb_step(ver) <= d.len(),
    ensures
        ({
            let p = base + i * ipdb_step(ver);
            &&& ipdb_entry(d, base, ver, i, ipdb_step(ver)) is Ok
            &&& ipdb_key(d, base, ver, i) == if ver == 4 {
                d[p] + d[p + 1] * 0x100int + d[p + 2] * 0x1_0000int + d[p + 3] * 0x100_0000int
            } else {
                d[p] + d[p + 1] * 0x100int + d[p + 2] * 0x1_0000int + d[p + 3] * 0x100_0000int
                    + d[p + 4] * 0x1_0000_0000int + d[p + 5] * 0x100_0000_0000int + d[p + 6]
                    * 0x1_0000_0000_0000int + d[p + 7] * 0x100_0000_0000_0000int
            }
            &&& ipdb_offset(d, base, ver, i) == if ver == 4 {
                d[p + 4] + d[p + 5] * 0x100int + d[p + 6] * 0x1_0000int
            } else {
                d[p + 8] + d[p + 9] * 0x100int + d[p + 10] * 0x1_0000int
            }
        }),
{
}

/// The string at a non-zero position `s` runs up to the first NUL byte or
/// the end of the buffer, decoded as lossy UTF-8; the position after it is
/// one past that end.  Position 0 holds the empty string, followed by
/// position 1.
pub proof fn lemma_cstring_by_bytes(d: Seq<u8>, s: int, e: int)
    ensures
        ipdb_read_cstring(d, 0) == Ok::<_, ()>((Seq::<char>::empty(), 1int)),
        0 < s <= e <= d.len() && (e == d.len() || d[e] == 0) && (forall|k: int|
            s <= k < e ==> d[k] != 0) && e - s <= MAX_TEXT_BYTES ==> ipdb_read_cstring(d, s)
            == Ok::<_, ()>((utf8_lossy(d.subrange(s, e)), e + 1)),
{
    if 0 < s <= e <= d.len() && (e == d.len() || d[e] == 0) && (forall|k: int|
        s <= k < e ==> d[k] != 0) {
        lemma_cstring_end(d, s, e);
    }
}

proof fn lemma_cstring_end(d: Seq<u8>, s: int, e: int)
    requires
        0 <= s <= e <= d.len(),
        e == d.len() || d[e] == 0,
        forall|k: int| s <= k < e ==> d[k] != 0,
    ensures
        cstring_end(d, s) == e,
    decreases e - s,
{
    if s < e {
        lemma_cstring_end(d, s + 1, e);
    }
}

/// A record segment with mode byte 2 is the string at the 24-bit
/// little-endian offset in the three bytes after the mode byte, the next
/// segment starting four bytes on; any other segment is the string stored
/// in place, the next segment starting after its end.
pub proof fn lemma_segment_bytes(d: Seq<u8>, pos: int, n: nat)
    requires
        n > 0,
        0 <= pos < d.len(),
    ensures
        ipdb_record_parts(d, pos, n) == if d[pos] == 2 {
            if pos + 4 > d.len() {
                Err(())
            } else {
                match ipdb_read_cstring(
                    d,
                    d[pos + 1] + d[pos + 2] * 0x100int + d[pos + 3] * 0x1_0000int,
                ) {
                    Ok((s, _)) => after_parts(seq![s], ipdb_record_parts(d, pos + 4, (n - 1) as nat)),
                    Err(_) => Err(()),
                }
            }
        } else {
            match ipdb_read_cstring(d, pos) {
                Ok((s, next)) => after_parts(seq![s], ipdb_record_parts(d, next, (n - 1) as nat)),
                Err(_) => Err(()),
            }
        },
{
}

/// Two IPv6 addresses with the same upper 64 bits (the same /64 prefix)
/// are looked up alike.
pub proof fn lemma_lookup_by_prefix(
    d: Seq<u8>,
    base: u64,
    count: u64,
    ver: u8,
    segs: u8,
    a: [u8; 16],
    b: [u8; 16],
)
    requires
        a@.subrange(0, 8) == b@.subrange(0, 8),
    ensures
        ipdb_lookup(d, base, count, ver, segs, IpAddr::V6(a)) == ipdb_lookup(
            d,
            base,
            count,
            ver,
            segs,
            IpAddr::V6(b),
        ),
{
    assert forall|i: int| 0 <= i < 8 implies a@[i] == b@[i] by {
        assert(a@[i] == a@.subrange(0, 8)[i]);
        assert(b@[i] == b@.subrange(0, 8)[i]);
    }
    assert(a@.subrange(4, 8) =~= b@.subrange(4, 8));
    assert(be_u32(a@) == be_u32(b@));
}

/// Whether `IPv6WryParser::new` can read the header of `data`.
pub fn header_fits(data: &Vec<u8>) -> (b: bool)
    ensures
        b == ipdb_header_fits(data@),
{
    let n = data.len();
    if n < 4 {
        return false;
    }
    if data[0] == 0x49 && data[1] == 0x50 && data[2] == 0x44 && data[3] == 0x42 {
        n >= 24 && (data[4] == 1 || n >= 25)
    } else {
        true
    }
}

impl IPv6WryParser {
    /// The database's bytes.
    pub closed spec fn bytes(&self) -> Seq<u8> {
        self.data@
    }

    /// The offset of the index, from the header.
    pub closed spec fn index_base(&self) -> u64 {
        self.index_base_offset
    }

    /// The number of index entries, from the header.
    pub closed spec fn record_count(&self) -> u64 {
        self.count
    }

    /// The address version (4 or 8), from the header.
    pub closed spec fn version(&self) -> u8 {
        self.ip_version
    }

    /// The number of segments per record.
    pub closed spec fn segments(&self) -> u8 {
        self.address_segment_len
    }

    /// Opens the database held in `data`: `BadMagic` where it does not start
    /// with `IPDB`.
    pub fn new(data: Vec<u8>) -> (r: Result<IPv6WryParser, DbError>)
        requires
            ipdb_header_fits(data@),
        ensures
            !has_ipdb_magic(data@) <==> r is Err,
            r is Err ==> r == Err::<IPv6WryParser, DbError>(DbError::BadMagic),
            r matches Ok(p) ==> {
                &&& p.bytes() == data@
                &&& p.version() == data@[7]
                &&& p.record_count() == le_u64(data@, 8)
                &&& p.index_base() == le_u64(data@, 16)
                &&& p.segments() == ipdb_segments(data@)
            },
    {
        if !(data[0] == 0x49 && data[1] == 0x50 && data[2] == 0x44 && data[3] == 0x42) {
            return Err(DbError::BadMagic);
        }
        let ip_version = data[7];
        let count = read_le_u64_at(data.as_slice(), 8);
        let index_base_offset = read_le_u64_at(data.as_slice(), 16);
        let address_segment_len = if data[4] != 1 {
            data[24]
        } else {
            2
        };
        Ok(IPv6WryParser { data, index_base_offset, count, ip_version, address_segment_len })
    }

    /// The 24-bit little-endian integer at `pos`.
    pub fn read_u24(&self, pos: usize) -> (v: u32)
        requires
            pos + 3 <= self.bytes().len(),
        ensures
            v as int == le_u24(self.bytes(), pos as int),
    {
        read_le_u24(self.data.as_slice(), pos)
    }

    /// The string at `start` and the position after its terminator; `Err`
    /// where `start` lies past the end of the buffer.
    pub fn checked_read_cstring_with_next(&self, start: usize) -> (r: Result<(String, usize), DbError>)
        ensures
            match r {
                Ok((s, next)) => ipdb_read_cstring(self.bytes(), start as int) == Ok::<_, ()>(
                    (s@, next as int),
                ),
                Err(_) => ipdb_read_cstring(self.bytes(), start as int) is Err,
            },
    {
        let ghost d = self.bytes();
        if start == 0 {
            return Ok((String::new(), 1));
        }
        let len = byte_len(&self.data);
        if start > len {
            return Err(DbError::Corrupt);
        }
        let mut end = start;
        while end < len && self.data[end] != 0
            invariant
                len == d.len(),
                len <= isize::MAX,
                d == self.data@,
                0 < start <= end <= len,
                cstring_end(d, start as int) == cstring_end(d, end as int),
            decreases len - end,
        {
            end = end + 1;
        }
        if end - start > MAX_TEXT_BYTES {
            return Err(DbError::Corrupt);
        }
        let s = decode_utf8_lossy(&self.data.as_slice()[start..end]);
        Ok((s, end + 1))
    }

    /// The string at `start` and the position after its terminator.
    pub fn read_cstring_with_next(&self, start: usize) -> (r: (String, usize))
        requires
            ipdb_read_cstring(self.bytes(), start as int) is Ok,
        ensures
            ipdb_read_cstring(self.bytes(), start as int) == Ok::<_, ()>((r.0@, r.1 as int)),
    {
        match self.checked_read_cstring_with_next(start) {
            Ok(r) => r,
            Err(_) => (String::new(), 0),
        }
    }

    /// The string at `pos`.
    pub fn read_cstring(&self, pos: usize) -> (s: String)
        requires
            ipdb_read_cstring(self.bytes(), pos as int) is Ok,
        ensures
            s@ == ipdb_read_cstring(self.bytes(), pos as int)->Ok_0.0,
    {
        let (s, _) = self.read_cstring_with_next(pos);
        s
    }

    /// The text of the record at `pos`; `Err` where a segment lies past the
    /// end of the buffer.
    pub fn checked_read_record(&self, pos: usize) -> (r: Result<String, DbError>)
        ensures
            match r {
                Ok(s) => ipdb_read_record(self.bytes(), pos as int, self.segments() as nat)
                    == Ok::<_, ()>(s@),
                Err(_) => ipdb_read_record(self.bytes(), pos as int, self.segments() as nat) is Err,
            },
    {
        let ghost d = self.bytes();
        let ghost total = ipdb_record_parts(d, pos as int, self.segments() as nat);
        let len = byte_len(&self.data);
        let n = self.address_segment_len;
        let mut parts: Vec<String> = Vec::new();
        let mut p = pos;
        let mut k: u8 = 0;
        assert(total matches Ok(rest) ==> Seq::<Seq<char>>::empty() + rest =~= rest);
        while k < n
            invariant
                total == ipdb_record_parts(d, pos as int, self.segments() as nat),
                len == d.len(),
                len <= isize::MAX,
                d == self.data@,
                n == self.segments(),
                k <= n,
                total == after_parts(
                    parts@.map_values(|s: String| s@),
                    ipdb_record_parts(d, p as int, (n - k) as nat),
                ),
            decreases n - k,
        {
            let ghost done = parts@.map_values(|s: String| s@);
            if p >= len {
                return Err(DbError::Corrupt);
            }
            let mode = self.data[p];
            let s;
            if mode == 2 {
                if len - p < 4 {
                    return Err(DbError::Corrupt);
                }
                let offset = self.read_u24(p + 1) as usize;
                s = match self.checked_read_cstring_with_next(offset) {
                    Ok((s, _)) => s,
                    Err(e) => return Err(e),
                };
                p = p + 4;
            } else {
                let (t, next) = match self.checked_read_cstring_with_next(p) {
                    Ok(v) => v,
                    Err(e) => return Err(e),
                };
                s = t;
                p = next;
            }
            parts.push(s);
            assert(parts@.map_values(|s: String| s@) =~= done + seq![s@]);
            assert(done + (seq![s@] + ipdb_record_parts(d, p as int, (n - k - 1) as nat)->Ok_0)
                =~= (done + seq![s@]) + ipdb_record_parts(d, p as int, (n - k - 1) as nat)->Ok_0);
            k = k + 1;
        }
        assert(parts@.map_values(|s: String| s@) + Seq::<Seq<char>>::empty() =~= parts@.map_values(
            |s: String| s@,
        ));
        let joined = join_with_spaces(&parts);
        Ok(trim_to_string(joined.as_str()))
    }

    /// The text of the record at `pos`: its segments joined with spaces,
    /// trimmed.
    pub fn read_record(&self, pos: usize) -> (s: String)
        requires
            ipdb_read_record(self.bytes(), pos as int, self.segments() as nat) is Ok,
        ensures
            ipdb_read_record(self.bytes(), pos as int, self.segments() as nat) == Ok::<_, ()>(s@),
    {
        match self.checked_read_record(pos) {
            Ok(s) => s,
            Err(_) => String::new(),
        }
    }

    /// Index entry `i` (key, record offset), entries being `step` bytes apart.
    fn read_index(&self, i: u64, step: u32) -> (r: Result<(u64, u64), DbError>)
        ensures
            match r {
                Ok((key, off)) => ipdb_entry(
                    self.bytes(),
                    self.index_base(),
                    self.version(),
                    i as int,
                    step as int,
                ) == Ok::<_, ()>((key as int, off as int)),
                Err(_) => ipdb_entry(
                    self.bytes(),
                    self.index_base(),
                    self.version(),
                    i as int,
                    step as int,
                ) is Err,
            },
    {
        let len = self.data.len();
        let prod = match i.checked_mul(step as u64) {
            Some(v) => v,
            None => return Err(DbError::Corrupt),
        };
        let p = match self.index_base_offset.checked_add(prod) {
            Some(v) => v,
            None => return Err(DbError::Corrupt),
        };
        let pos = p as usize;
        if self.ip_version == 4 {
            if pos > len || len - pos < 7 {
                return Err(DbError::Corrupt);
            }
            let ip = read_le_u32_at(self.data.as_slice(), pos) as u64;
            let offset = self.read_u24(pos + 4) as u64;
            Ok((ip, offset))
        } else {
            if pos > len || len - pos < 11 {
                return Err(DbError::Corrupt);
            }
            let ip = read_le_u64_at(self.data.as_slice(), pos);
            let offset = self.read_u24(pos + 8) as u64;
            Ok((ip, offset))
        }
    }

    /// The text of the record for `needle`; `Err` where the search or the
    /// record reaches past the buffer or its arithmetic overflows.
    pub fn checked_search_record(&self, needle: u64) -> (r: Result<String, DbError>)
        ensures
            match r {
                Ok(s) => ipdb_search_record(
                    self.bytes(),
                    self.index_base(),
                    self.record_count(),
                    self.version(),
                    self.segments(),
                    needle,
                ) == Ok::<_, ()>(s@),
                Err(_) => ipdb_search_record(
                    self.bytes(),
                    self.index_base(),
                    self.record_count(),
                    self.version(),
                    self.segments(),
                    needle,
                ) is Err,
            },
    {
        let ghost d = self.bytes();
        if self.count == 0 {
            return Err(DbError::Corrupt);
        }
        let mut lo: u64 = 0;
        let mut hi: u64 = self.count - 1;
        let index_step: u32 = if self.ip_version == 4 {
            7
        } else {
            11
        };
        let mut hit_offset = self.index_base_offset;
        while lo <= hi
            invariant_except_break
                d == self.bytes(),
                self.count > 0,
                hi < self.count,
                lo <= hi + 1,
                index_step == ipdb_step(self.ip_version),
                ipdb_search(
                    d,
                    self.index_base_offset,
                    self.ip_version,
                    needle,
                    lo as int,
                    hi as int,
                    hit_offset as int,
                ) == ipdb_search(
                    d,
                    self.index_base_offset,
                    self.ip_version,
                    needle,
                    0,
                    self.count - 1,
                    self.index_base_offset as int,
                ),
            ensures
                ipdb_search(
                    d,
                    self.index_base_offset,
                    self.ip_version,
                    needle,
                    0,
                    self.count - 1,
                    self.index_base_offset as int,
                ) == Ok::<int, ()>(hit_offset as int),
            decreases hi - lo + 1,
        {
            if lo > u64::MAX - hi {
                return Err(DbError::Corrupt);
            }
            let mid = (lo + hi) / 2;
            let (mid_ip, offset) = match self.read_index(mid, index_step) {
                Ok(v) => v,
                Err(e) => return Err(e),
            };
            if needle >= mid_ip {
                hit_offset = offset;
                lo = mid + 1;
            } else {
                if mid == 0 {
                    break;
                }
                hi = mid - 1;
            }
        }
        self.checked_read_record(hit_offset as usize)
    }

    /// The text of the record for `needle`.
    pub fn search_record(&self, needle: u64) -> (r: Option<String>)
        requires
            ipdb_search_record(
                self.bytes(),
                self.index_base(),
                self.record_count(),
                self.version(),
                self.segments(),
                needle,
            ) is Ok,
        ensures
            r matches Some(s) && ipdb_search_record(
                self.bytes(),
                self.index_base(),
                self.record_count(),
                self.version(),
                self.segments(),
                needle,
            ) == Ok::<_, ()>(s@),
    {
        match self.checked_search_record(needle) {
            Ok(s) => Some(s),
            Err(_) => None,
        }
    }

    /// Looks up `addr`: the text of its record, `None` where the database
    /// holds addresses of the other version; `Err` where the search or the
    /// record reaches past the buffer or its arithmetic overflows.
    pub fn checked_lookup(&self, addr: IpAddr) -> (r: Result<Option<String>, DbError>)
        ensures
            match r {
                Ok(Some(s)) => ipdb_lookup(
                    self.bytes(),
                    self.index_base(),
                    self.record_count(),
                    self.version(),
                    self.segments(),
                    addr,
                ) == Ok::<_, ()>(Some(s@)),
                Ok(None) => ipdb_lookup(
                    self.bytes(),
                    self.index_base(),
                    self.record_count(),
                    self.version(),
                    self.segments(),
                    addr,
                ) == Ok::<Option<Seq<char>>, ()>(None),
                Err(_) => ipdb_lookup(
                    self.bytes(),
                    self.index_base(),
                    self.record_count(),
                    self.version(),
                    self.segments(),
                    addr,
                ) is Err,
            },
    {
        let needle: u64 = match addr {
            IpAddr::V4(o) => {
                if self.ip_version != 4 {
                    return Ok(None);
                }
                (o[0] as u64) * 0x100_0000 + (o[1] as u64) * 0x1_0000 + (o[2] as u64) * 0x100 + (
                o[3] as u64)
            },
            IpAddr::V6(o) => {
                if self.ip_version != 8 {
                    return Ok(None);
                }
                let rev: [u8; 8] = [o[7], o[6], o[5], o[4], o[3], o[2], o[1], o[0]];
                let v = read_le_u64(rev.as_slice());
                assert(o@.subrange(4, 8)[0] == o@[4] && o@.subrange(4, 8)[3] == o@[7]);
                v
            },
        };
        match self.checked_search_record(needle) {
            Ok(s) => Ok(Some(s)),
            Err(e) => Err(e),
        }
    }

    /// Looks up `addr`: the text of its record, `None` where the database
    /// holds addresses of the other version.
    pub fn lookup(&self, addr: IpAddr) -> (r: Option<String>)
        requires
            ipdb_lookup(
                self.bytes(),
                self.index_base(),
                self.record_count(),
                self.version(),
                self.segments(),
                addr,
            ) is Ok,
        ensures
            match r {
                Some(s) => ipdb_lookup(
                    self.bytes(),
                    self.index_base(),
                    self.record_count(),
                    self.version(),
                    self.segments(),
                    addr,
                ) == Ok::<_, ()>(Some(s@)),
                None => ipdb_lookup(
                    self.bytes(),
                    self.index_base(),
                    self.record_count(),
                    self.version(),
                    self.segments(),
                    addr,
                ) == Ok::<Option<Seq<char>>, ()>(None),
            },
    {
        match self.checked_lookup(addr) {
            Ok(r) => r,
            Err(_) => None,
        }
    }
}

} // verus!
