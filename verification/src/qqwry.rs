//! Reader of the QQWry (`QQWry.Dat`) IPv4 geo-location database.
//!
//! Layout: a header of two little-endian `u32`, the offsets of the first and
//! of the last index record.  Each index record is seven bytes: the first
//! address of a range (`u32`) and the 24-bit offset of the range's record.
//! A range record starts with the last address of the range (`u32`),
//! followed by the location: a country and an area, each either a
//! NUL-terminated GBK string or a redirection (mode byte 1 or 2 and a 24-bit
//! offset); mode byte 1 in front of the whole location redirects it.

use crate::bytes::{le_u24, le_u32, read_le_u24, read_le_u32_at};
use crate::error::DbError;
use crate::text::{decode_gbk, gbk_decode, MAX_TEXT_BYTES};
use vstd::prelude::*;

verus! {

/// Country and area of an address.
#[derive(Debug, Clone)]
pub struct IpLocation {
    pub country: String,
    pub area: String,
}

/// An open QQWry database.
pub struct QQWryParser {
    data: Vec<u8>,
    index_start: u32,
    index_end: u32,
}

// ---------------------------------------------------------------------------
// Dotted IPv4 text

/// Whether `c` is one of `0`..`9`.
pub open spec fn is_ascii_digit(c: char) -> bool {
    '0' <= c <= '9'
}

/// The number that the decimal digits `s` spell.
pub open spec fn decimal_value(s: Seq<char>) -> int
    decreases s.len(),
{
    if s.len() == 0 {
        0
    } else {
        10 * decimal_value(s.drop_last()) + (s.last() as int - '0' as int)
    }
}

/// `s` without a leading `+`.
pub open spec fn unsigned_digits(s: Seq<char>) -> Seq<char> {
    if s.len() > 0 && s[0] == '+' {
        s.drop_first()
    } else {
        s
    }
}

/// Whether every character of `s` is a decimal digit.
pub open spec fn all_digits(s: Seq<char>) -> bool {
    forall|i: int| 0 <= i < s.len() ==> is_ascii_digit(#[trigger] s[i])
}

/// What `str::parse::<u32>` gives for `s`: an optional `+` followed by one or
/// more decimal digits whose value fits in a `u32`.
pub open spec fn parse_u32(s: Seq<char>) -> Option<u32> {
    let digits = unsigned_digits(s);
    if digits.len() > 0 && all_digits(digits) && decimal_value(digits) <= u32::MAX {
        Some(decimal_value(digits) as u32)
    } else {
        None
    }
}

/// The pieces of `s` between dots, as `str::split('.')` gives them.
pub open spec fn split_dots(s: Seq<char>) -> Seq<Seq<char>>
    decreases s.len(),
{
    if s.len() == 0 {
        seq![Seq::empty()]
    } else {
        let pieces = split_dots(s.drop_last());
        if s.last() == '.' {
            pieces.push(Seq::empty())
        } else {
            pieces.update(pieces.len() - 1, pieces.last().push(s.last()))
        }
    }
}

/// The numbers among `pieces`, in order: the pieces that do not parse as a
/// `u32` are left out.
pub open spec fn parsed_numbers(pieces: Seq<Seq<char>>) -> Seq<u32>
    decreases pieces.len(),
{
    if pieces.len() == 0 {
        Seq::empty()
    } else {
        let rest = parsed_numbers(pieces.drop_last());
        match parse_u32(pieces.last()) {
            Some(v) => rest.push(v),
            None => rest,
        }
    }
}

/// The address that the text `s` denotes: the numbers among its dot-separated
/// pieces, when there are exactly four, as the bytes of a big-endian `u32`
/// (each number shifted into place, higher bits of a number past 255 are
/// shifted out or or-ed into the next byte).
pub open spec fn ipv4_value(s: Seq<char>) -> Option<u32> {
    let n = parsed_numbers(split_dots(s));
    if n.len() == 4 {
        Some((n[0] << 24u32) | (n[1] << 16u32) | (n[2] << 8u32) | n[3])
    } else {
        None
    }
}

/// Parses the characters `s[start..end]` as `str::parse::<u32>` would.
pub fn parse_u32_piece(s: &str, start: usize, end: usize) -> (r: Option<u32>)
    requires
        start <= end <= s@.len(),
    ensures
        r == parse_u32(s@.subrange(start as int, end as int)),
{
    let ghost piece = s@.subrange(start as int, end as int);
    let mut i = start;
    if start < end && s.get_char(start) == '+' {
        i = start + 1;
    }
    let ghost digits = s@.subrange(i as int, end as int);
    assert(digits =~= unsigned_digits(piece));
    if i == end {
        return None;
    }
    let first = i;
    // `value` saturates at `u32::MAX + 1`
    let mut value: u64 = 0;
    while i < end
        invariant
            start <= first <= i <= end <= s@.len(),
            first < end,
            digits == s@.subrange(first as int, end as int),
            piece == s@.subrange(start as int, end as int),
            digits == unsigned_digits(piece),
            forall|k: int| first <= k < i ==> is_ascii_digit(#[trigger] s@[k]),
            value == (if decimal_value(s@.subrange(first as int, i as int)) > u32::MAX {
                u32::MAX as int + 1
            } else {
                decimal_value(s@.subrange(first as int, i as int))
            }),
        decreases end - i,
    {
        let c = s.get_char(i);
        if !('0' <= c && c <= '9') {
            assert(digits[i - first] == c);
            assert(!is_ascii_digit(digits[i - first]));
            assert(!all_digits(digits));
            return None;
        }
        let d = (c as u32 - '0' as u32) as u64;
        assert(s@.subrange(first as int, i + 1).drop_last() =~= s@.subrange(first as int, i as int));
        if value <= u32::MAX as u64 {
            value = value * 10 + d;
            if value > u32::MAX as u64 {
                value = u32::MAX as u64 + 1;
            }
        }
        i = i + 1;
    }
    assert(s@.subrange(first as int, i as int) =~= digits);
    if value > u32::MAX as u64 {
        None
    } else {
        Some(value as u32)
    }
}

// ---------------------------------------------------------------------------
// Dotted-quad text

proof fn lemma_split_dots_len(s: Seq<char>)
    ensures
        split_dots(s).len() >= 1,
    decreases s.len(),
{
    if s.len() > 0 {
        lemma_split_dots_len(s.drop_last());
    }
}

proof fn lemma_split_no_dot(p: Seq<char>)
    requires
        forall|i: int| 0 <= i < p.len() ==> p[i] != '.',
    ensures
        split_dots(p) == seq![p],
    decreases p.len(),
{
    if p.len() > 0 {
        lemma_split_no_dot(p.drop_last());
        assert(p.drop_last().push(p.last()) =~= p);
    } else {
        assert(p =~= Seq::<char>::empty());
    }
}

proof fn lemma_split_concat(s: Seq<char>, t: Seq<char>)
    ensures
        split_dots(s + seq!['.'] + t) == split_dots(s) + split_dots(t),
    decreases t.len(),
{
    let u = s + seq!['.'] + t;
    if t.len() == 0 {
        assert(u.drop_last() =~= s);
        assert(split_dots(s).push(Seq::empty()) =~= split_dots(s) + seq![Seq::<char>::empty()]);
    } else {
        assert(u.drop_last() =~= s + seq!['.'] + t.drop_last());
        lemma_split_concat(s, t.drop_last());
        lemma_split_dots_len(t.drop_last());
        let a = split_dots(s);
        let b = split_dots(t.drop_last());
        if t.last() == '.' {
            assert((a + b).push(Seq::empty()) =~= a + b.push(Seq::empty()));
        } else {
            assert((a + b).update((a + b).len() - 1, (a + b).last().push(t.last())) =~= a + b.update(
                b.len() - 1,
                b.last().push(t.last()),
            ));
        }
    }
}

proof fn lemma_parsed_numbers_concat(x: Seq<Seq<char>>, y: Seq<Seq<char>>)
    ensures
        parsed_numbers(x + y) == parsed_numbers(x) + parsed_numbers(y),
    decreases y.len(),
{
    if y.len() == 0 {
        assert(x + y =~= x);
        assert(parsed_numbers(x) + Seq::<u32>::empty() =~= parsed_numbers(x));
    } else {
        assert((x + y).drop_last() =~= x + y.drop_last());
        lemma_parsed_numbers_concat(x, y.drop_last());
        match parse_u32(y.last()) {
            Some(v) => {
                assert((parsed_numbers(x) + parsed_numbers(y.drop_last())).push(v) =~= parsed_numbers(
                    x,
                ) + parsed_numbers(y.drop_last()).push(v));
            },
            None => {},
        }
    }
}

/// A decimal byte: one or more digits whose value is at most 255.
pub open spec fn is_decimal_byte(p: Seq<char>) -> bool {
    p.len() > 0 && all_digits(p) && decimal_value(p) <= 255
}

proof fn lemma_decimal_nonneg(p: Seq<char>)
    requires
        all_digits(p),
    ensures
        decimal_value(p) >= 0,
    decreases p.len(),
{
    if p.len() > 0 {
        assert(is_ascii_digit(p[p.len() - 1]));
        assert(all_digits(p.drop_last())) by {
            assert forall|i: int| 0 <= i < p.drop_last().len() implies is_ascii_digit(
                #[trigger] p.drop_last()[i],
            ) by {
                assert(p.drop_last()[i] == p[i]);
            }
        }
        lemma_decimal_nonneg(p.drop_last());
    }
}

proof fn lemma_decimal_byte(p: Seq<char>)
    requires
        is_decimal_byte(p),
    ensures
        0 <= decimal_value(p) <= 255,
        parsed_numbers(split_dots(p)) == seq![decimal_value(p) as u32],
{
    lemma_decimal_nonneg(p);
    assert(is_ascii_digit(p[0]));
    assert(unsigned_digits(p) == p);
    assert forall|i: int| 0 <= i < p.len() implies p[i] != '.' by {
        assert(is_ascii_digit(p[i]));
    }
    lemma_split_no_dot(p);
    assert(seq![p].drop_last() =~= Seq::<Seq<char>>::empty());
    assert(seq![p].last() == p);
    assert(parse_u32(p) == Some(decimal_value(p) as u32));
    assert(parsed_numbers(Seq::<Seq<char>>::empty()) == Seq::<u32>::empty());
    assert(parsed_numbers(seq![p].drop_last()) == Seq::<u32>::empty());
    assert(parsed_numbers(split_dots(p)) == Seq::<u32>::empty().push(decimal_value(p) as u32));
    assert(Seq::<u32>::empty().push(decimal_value(p) as u32) =~= seq![decimal_value(p) as u32]);
}

/// The text of four decimal bytes joined by dots denotes the address whose
/// big-endian bytes they are.
pub proof fn lemma_dotted_quad(a: Seq<char>, b: Seq<char>, c: Seq<char>, d: Seq<char>)
    requires
        is_decimal_byte(a),
        is_decimal_byte(b),
        is_decimal_byte(c),
        is_decimal_byte(d),
    ensures
        ipv4_value(a + seq!['.'] + b + seq!['.'] + c + seq!['.'] + d) == Some(
            (decimal_value(a) * 0x100_0000 + decimal_value(b) * 0x1_0000 + decimal_value(c) * 0x100
                + decimal_value(d)) as u32,
        ),
{
    let ab = a + seq!['.'] + b;
    let abc = ab + seq!['.'] + c;
    let s = abc + seq!['.'] + d;
    lemma_split_concat(a, b);
    lemma_split_concat(ab, c);
    lemma_split_concat(abc, d);
    lemma_decimal_byte(a);
    lemma_decimal_byte(b);
    lemma_decimal_byte(c);
    lemma_decimal_byte(d);
    lemma_parsed_numbers_concat(split_dots(a), split_dots(b));
    lemma_parsed_numbers_concat(split_dots(ab), split_dots(c));
    lemma_parsed_numbers_concat(split_dots(abc), split_dots(d));
    let n = parsed_numbers(split_dots(s));
    let va = decimal_value(a) as u32;
    let vb = decimal_value(b) as u32;
    let vc = decimal_value(c) as u32;
    let vd = decimal_value(d) as u32;
    assert(n =~= seq![va, vb, vc, vd]);
    assert((va << 24u32) | (vb << 16u32) | (vc << 8u32) | vd == va * 0x100_0000 + vb * 0x1_0000 + vc
        * 0x100 + vd) by (bit_vector)
        requires
            va <= 255,
            vb <= 255,
            vc <= 255,
            vd <= 255,
    ;
}

// ---------------------------------------------------------------------------
// Reading records

/// The position of the first NUL byte at or after `off`, if there is one.
pub open spec fn find_nul(d: Seq<u8>, off: int) -> Option<int>
    decreases d.len() - off,
{
    if off < 0 || off >= d.len() {
        None
    } else if d[off] == 0 {
        Some(off)
    } else {
        find_nul(d, off + 1)
    }
}

/// The NUL-terminated string at `off`, decoded, and the position after its
/// terminator; `Err` where there is no terminator.
pub open spec fn qq_read_string(d: Seq<u8>, off: int) -> Result<(Seq<char>, int), ()> {
    match find_nul(d, off) {
        Some(end) => if end - off <= MAX_TEXT_BYTES {
            Ok((gbk_decode(d.subrange(off, end)), end + 1))
        } else {
            Err(())
        },
        None => Err(()),
    }
}

/// The country or area field at `off` and the position after it: a string,
/// or (mode byte 1 or 2) the string at the 24-bit offset that follows the
/// mode byte, the field then being four bytes long.
pub open spec fn qq_read_area(d: Seq<u8>, off: int) -> Result<(Seq<char>, int), ()> {
    if off < 0 || off >= d.len() {
        Err(())
    } else if d[off] == 1 || d[off] == 2 {
        if off + 4 > d.len() {
            Err(())
        } else {
            match qq_read_string(d, le_u24(d, off + 1)) {
                Ok((s, _)) => Ok((s, off + 4)),
                Err(_) => Err(()),
            }
        }
    } else {
        qq_read_string(d, off)
    }
}

/// Where the location at `off` starts once the redirections (mode byte 1 and
/// a 24-bit offset) are followed, following at most `fuel` of them.
pub open spec fn qq_location_start(d: Seq<u8>, off: int, fuel: nat) -> Result<int, ()>
    decreases fuel,
{
    if off < 0 || off >= d.len() {
        Err(())
    } else if d[off] == 1 {
        if off + 4 > d.len() || fuel == 0 {
            Err(())
        } else {
            qq_location_start(d, le_u24(d, off + 1), (fuel - 1) as nat)
        }
    } else {
        Ok(off)
    }
}

/// The location (country, area) at `off`.  A chain of redirections that
/// does not end within `d.len()` steps never ends.
pub open spec fn qq_read_location(d: Seq<u8>, off: int) -> Result<(Seq<char>, Seq<char>), ()> {
    match qq_location_start(d, off, d.len()) {
        Ok(start) => match qq_read_area(d, start) {
            Ok((country, next)) => match qq_read_area(d, next) {
                Ok((area, _)) => Ok((country, area)),
                Err(_) => Err(()),
            },
            Err(_) => Err(()),
        },
        Err(_) => Err(()),
    }
}

/// The position of index record `m`.
pub open spec fn qq_index_pos(istart: int, m: int) -> int {
    istart + m * 7
}

/// The binary search over the index records `l..=r` for the range holding
/// `ip`, as the reader performs it.  `Err` where it reads past the end of the
/// buffer or its arithmetic overflows.
pub open spec fn qq_search(d: Seq<u8>, istart: int, ip: u32, l: int, r: int) -> Result<
    Option<(Seq<char>, Seq<char>)>,
    (),
>
    decreases r - l + 1,
{
    if l > r {
        Ok(None)
    } else {
        let m = (l + r) / 2;
        let pos = qq_index_pos(istart, m);
        if pos > u32::MAX || pos + 4 > d.len() {
            Err(())
        } else if ip < le_u32(d, pos) {
            if m == 0 {
                Err(())
            } else {
                qq_search(d, istart, ip, l, m - 1)
            }
        } else if pos + 7 > d.len() || le_u24(d, pos + 4) + 4 > d.len() {
            Err(())
        } else if ip <= le_u32(d, le_u24(d, pos + 4)) {
            match qq_read_location(d, le_u24(d, pos + 4) + 4) {
                Ok(loc) => Ok(Some(loc)),
                Err(_) => Err(()),
            }
        } else {
            qq_search(d, istart, ip, m + 1, r)
        }
    }
}

/// The lookup of the text `ip` in a database with bytes `d` and index
/// records from `istart` to `iend`: `Ok(None)` where the text is no address
/// or no range holds it.
pub open spec fn qq_lookup(d: Seq<u8>, istart: u32, iend: u32, ip: Seq<char>) -> Result<
    Option<(Seq<char>, Seq<char>)>,
    (),
> {
    match ipv4_value(ip) {
        None => Ok(None),
        Some(v) => if iend < istart {
            Err(())
        } else {
            qq_search(d, istart as int, v, 0, (iend - istart) / 7)
        },
    }
}

// ---------------------------------------------------------------------------
// Redirections

/// Whether `p` holds a location redirection that can be followed: mode byte
/// 1 and a complete 24-bit offset.
pub open spec fn qq_is_redirect(d: Seq<u8>, p: int) -> bool {
    0 <= p && p + 4 <= d.len() && d[p] == 1
}

/// The position reached from `off` after following `k` redirections.
pub open spec fn qq_hop(d: Seq<u8>, off: int, k: nat) -> int
    decreases k,
{
    if k == 0 {
        off
    } else {
        le_u24(d, qq_hop(d, off, (k - 1) as nat) + 1)
    }
}

proof fn lemma_hop_compose(d: Seq<u8>, off: int, a: nat, b: nat)
    ensures
        qq_hop(d, off, a + b) == qq_hop(d, qq_hop(d, off, a), b),
    decreases b,
{
    if b > 0 {
        lemma_hop_compose(d, off, a, (b - 1) as nat);
        assert(((a + b) - 1) as nat == a + (b - 1) as nat);
    }
}

/// Where a successful walk of the redirections ends: after `k` redirections,
/// all of them followable, at a position that holds none.
proof fn lemma_location_hops(d: Seq<u8>, off: int, fuel: nat) -> (k: nat)
    requires
        qq_location_start(d, off, fuel) is Ok,
    ensures
        k <= fuel,
        qq_location_start(d, off, fuel) == Ok::<int, ()>(qq_hop(d, off, k)),
        forall|i: nat| i < k ==> qq_is_redirect(d, #[trigger] qq_hop(d, off, i)),
        0 <= qq_hop(d, off, k) < d.len(),
        d[qq_hop(d, off, k)] != 1,
    decreases fuel,
{
    if d[off] == 1 {
        let next = le_u24(d, off + 1);
        let k0 = lemma_location_hops(d, next, (fuel - 1) as nat);
        assert forall|i: nat| i <= k0 implies qq_hop(d, off, i + 1) == #[trigger] qq_hop(d, next, i) by {
            lemma_hop_compose(d, off, 1, i);
            assert(qq_hop(d, off, 0) == off);
            assert(qq_hop(d, off, 1) == next);
        }
        assert forall|i: nat| i < k0 + 1 implies qq_is_redirect(d, #[trigger] qq_hop(d, off, i)) by {
            if i > 0 {
                assert(qq_hop(d, off, ((i - 1) as nat) + 1) == qq_hop(d, next, (i - 1) as nat));
            }
        }
        assert(qq_hop(d, off, k0 + 1) == qq_hop(d, next, k0));
        k0 + 1
    } else {
        0
    }
}

/// The converse: a walk of `k` followable redirections that ends at a
/// position holding none succeeds with any fuel of at least `k`.
proof fn lemma_location_from_hops(d: Seq<u8>, off: int, k: nat, fuel: nat)
    requires
        k <= fuel,
        forall|i: nat| i < k ==> qq_is_redirect(d, #[trigger] qq_hop(d, off, i)),
        0 <= qq_hop(d, off, k) < d.len(),
        d[qq_hop(d, off, k)] != 1,
    ensures
        qq_location_start(d, off, fuel) == Ok::<int, ()>(qq_hop(d, off, k)),
    decreases k,
{
    if k > 0 {
        assert(qq_is_redirect(d, qq_hop(d, off, 0)));
        let next = le_u24(d, off + 1);
        assert forall|i: nat| i <= (k - 1) as nat implies qq_hop(d, off, i + 1) == #[trigger] qq_hop(
            d,
            next,
            i,
        ) by {
            lemma_hop_compose(d, off, 1, i);
            assert(qq_hop(d, off, 0) == off);
            assert(qq_hop(d, off, 1) == next);
        }
        assert forall|i: nat| i < (k - 1) as nat implies qq_is_redirect(
            d,
            #[trigger] qq_hop(d, next, i),
        ) by {
            assert(qq_is_redirect(d, qq_hop(d, off, i + 1)));
        }
        assert(qq_hop(d, off, ((k - 1) as nat) + 1) == qq_hop(d, next, (k - 1) as nat));
        lemma_location_from_hops(d, next, (k - 1) as nat, (fuel - 1) as nat);
    }
}

/// The positions visited by a walk that ends are pairwise different: a
/// repeated position would make the walk go round for ever.
proof fn lemma_hops_distinct(d: Seq<u8>, off: int, k: nat, i: nat, j: nat)
    requires
        forall|m: nat| m < k ==> qq_is_redirect(d, #[trigger] qq_hop(d, off, m)),
        d[qq_hop(d, off, k)] != 1,
        i < j <= k,
    ensures
        qq_hop(d, off, i) != qq_hop(d, off, j),
{
    if qq_hop(d, off, i) == qq_hop(d, off, j) {
        let t = (k - j) as nat;
        lemma_hop_compose(d, off, j, t);
        lemma_hop_compose(d, off, i, t);
        assert(j + t == k);
        assert(qq_hop(d, off, k) == qq_hop(d, off, i + t));
        assert(qq_is_redirect(d, qq_hop(d, off, i + t)));
    }
}

/// A chain of location redirections that ends at all ends within as many
/// steps as the buffer has bytes: the walk visits pairwise different
/// positions inside the buffer.  So a reader that gives up after `d.len()`
/// redirections answers as one that follows them for ever, and a walk that
/// does not end within `d.len()` steps never ends.
pub proof fn lemma_redirections_end_within_len(d: Seq<u8>, off: int, fuel: nat)
    requires
        qq_location_start(d, off, fuel) is Ok,
    ensures
        qq_location_start(d, off, d.len()) == qq_location_start(d, off, fuel),
{
    let k = lemma_location_hops(d, off, fuel);
    let x = vstd::set_lib::set_int_range(0, (k + 1) as int);
    let f = |i: int| qq_hop(d, off, i as nat);
    let y = x.map(f);
    vstd::set_lib::lemma_int_range(0, (k + 1) as int);
    assert(vstd::relations::injective_on(f, x)) by {
        assert forall|a: int, b: int| x.contains(a) && x.contains(b) && #[trigger] f(a) == #[trigger] f(
            b,
        ) implies a == b by {
            if a < b {
                lemma_hops_distinct(d, off, k, a as nat, b as nat);
            } else if b < a {
                lemma_hops_distinct(d, off, k, b as nat, a as nat);
            }
        }
    }
    vstd::set_lib::lemma_map_size(x, y, f);
    let z = vstd::set_lib::set_int_range(0, d.len() as int);
    assert(y.subset_of(z)) by {
        assert forall|p: int| y.contains(p) implies z.contains(p) by {
            let i = choose|i: int| x.contains(i) && p == f(i);
            if i < k {
                assert(qq_is_redirect(d, qq_hop(d, off, i as nat)));
            }
        }
    }
    vstd::set_lib::lemma_int_range(0, d.len() as int);
    vstd::set_lib::lemma_len_subset(y, z);
    lemma_location_from_hops(d, off, k, d.len());
}

// ---------------------------------------------------------------------------
// What a field and a location hold, by their bytes

/// Whether `d[s..e]` holds no NUL byte and `d[e]` is the NUL that ends it.
pub open spec fn nul_terminated(d: Seq<u8>, s: int, e: int) -> bool {
    &&& 0 <= s <= e < d.len()
    &&& d[e] == 0
    &&& forall|i: int| s <= i < e ==> d[i] != 0
}

/// Whether the country or area field at `p` denotes the text `t`, the next
/// field starting at `next`: with mode byte 1 or 2 the field is four bytes
/// long and denotes the string whose offset is the 24-bit little-endian
/// integer in the three bytes after the mode byte; otherwise it is the
/// string stored at `p`, the next field starting after its NUL.
pub open spec fn qq_field(d: Seq<u8>, p: int, t: Seq<char>, next: int) -> bool {
    &&& 0 <= p < d.len()
    &&& if d[p] == 1 || d[p] == 2 {
        let q = d[p + 1] + 256 * d[p + 2] + 65536 * d[p + 3];
        &&& p + 4 <= d.len()
        &&& next == p + 4
        &&& exists|e: int|
            #[trigger] nul_terminated(d, q, e) && e - q <= MAX_TEXT_BYTES && t == gbk_decode(
                d.subrange(q, e),
            )
    } else {
        exists|e: int|
            #[trigger] nul_terminated(d, p, e) && e - p <= MAX_TEXT_BYTES && t == gbk_decode(
                d.subrange(p, e),
            ) && next == e + 1
    }
}

proof fn lemma_find_nul(d: Seq<u8>, s: int)
    ensures
        match find_nul(d, s) {
            Some(e) => nul_terminated(d, s, e),
            None => forall|e: int| !#[trigger] nul_terminated(d, s, e),
        },
    decreases d.len() - s,
{
    if 0 <= s < d.len() && d[s] != 0 {
        lemma_find_nul(d, s + 1);
        match find_nul(d, s + 1) {
            Some(e) => {},
            None => {
                assert forall|e: int| !#[trigger] nul_terminated(d, s, e) by {
                    if nul_terminated(d, s, e) {
                        assert(nul_terminated(d, s + 1, e));
                    }
                }
            },
        }
    }
}

/// The strings that the readers read are the NUL-terminated ones: reading
/// at `s` gives the decoded bytes up to the NUL and the position after it,
/// and fails where no NUL follows.
pub proof fn lemma_string_by_bytes(d: Seq<u8>, s: int, e: int)
    requires
        nul_terminated(d, s, e),
    ensures
        qq_read_string(d, s) == (if e - s <= MAX_TEXT_BYTES {
            Ok::<_, ()>((gbk_decode(d.subrange(s, e)), e + 1))
        } else {
            Err(())
        }),
{
    lemma_find_nul(d, s);
    if find_nul(d, s) != Some(e) {
        let f = find_nul(d, s)->Some_0;
        assert(f < e ==> d[f] != 0);
        assert(e < f ==> d[e] != 0);
    }
}

/// A country or area field is read as the text it denotes: reading the
/// field at `p` succeeds with `(t, next)` exactly where the field denotes
/// `t` and the next field starts at `next`.
pub proof fn lemma_field_read(d: Seq<u8>, p: int, t: Seq<char>, next: int)
    ensures
        qq_read_area(d, p) == Ok::<_, ()>((t, next)) <==> qq_field(d, p, t, next),
{
    if 0 <= p < d.len() {
        let q = d[p + 1] + 256 * d[p + 2] + 65536 * d[p + 3];
        let s = if d[p] == 1 || d[p] == 2 {
            q
        } else {
            p
        };
        if (d[p] == 1 || d[p] == 2) && p + 4 > d.len() {
        } else {
            if d[p] == 1 || d[p] == 2 {
                assert(le_u24(d, p + 1) == q);
            }
            lemma_find_nul(d, s);
            match find_nul(d, s) {
                Some(e) => {
                    lemma_string_by_bytes(d, s, e);
                    assert forall|f: int| #[trigger] nul_terminated(d, s, f) implies f == e by {
                        assert(f < e ==> d[f] != 0);
                        assert(e < f ==> d[e] != 0);
                    }
                },
                None => {},
            }
        }
    }
}

/// The location at `off` holds what its two fields denote: the country
/// field where the location's redirections (mode byte 1) lead, and the area
/// field right after it.  Reading succeeds with `(c, a)` exactly where the
/// fields there denote `c` and `a`.
pub proof fn lemma_location_fields(d: Seq<u8>, off: int, start: int, c: Seq<char>, a: Seq<char>)
    requires
        qq_location_start(d, off, d.len()) == Ok::<int, ()>(start),
    ensures
        qq_read_location(d, off) == Ok::<_, ()>((c, a)) <==> exists|next: int, after: int|
            #[trigger] qq_field(d, start, c, next) && #[trigger] qq_field(d, next, a, after),
{
    match qq_read_area(d, start) {
        Ok((c0, next0)) => {
            lemma_field_read(d, start, c0, next0);
            match qq_read_area(d, next0) {
                Ok((a0, after0)) => {
                    lemma_field_read(d, next0, a0, after0);
                    assert forall|next: int, after: int|
                        #[trigger] qq_field(d, start, c, next) && #[trigger] qq_field(
                            d,
                            next,
                            a,
                            after,
                        ) implies c == c0 && a == a0 by {
                        lemma_field_read(d, start, c, next);
                        lemma_field_read(d, next, a, after);
                    }
                },
                Err(_) => {
                    assert forall|next: int, after: int|
                        #[trigger] qq_field(d, start, c, next) && #[trigger] qq_field(
                            d,
                            next,
                            a,
                            after,
                        ) implies false by {
                        lemma_field_read(d, start, c, next);
                        lemma_field_read(d, next, a, after);
                    }
                },
            }
        },
        Err(_) => {
            assert forall|next: int, after: int|
                #[trigger] qq_field(d, start, c, next) && #[trigger] qq_field(
                    d,
                    next,
                    a,
                    after,
                ) implies false by {
                lemma_field_read(d, start, c, next);
            }
        },
    }
}

/// A location that starts with mode byte 1 is redirected to the location
/// at the 24-bit little-endian offset in its next three bytes, using up one
/// redirection; any other location starts where it stands.
pub proof fn lemma_location_redirect_bytes(d: Seq<u8>, off: int, fuel: nat)
    requires
        0 <= off < d.len(),
    ensures
        d[off] == 1 && off + 4 <= d.len() && fuel > 0 ==> qq_location_start(d, off, fuel)
            == qq_location_start(
            d,
            d[off + 1] + 256 * d[off + 2] + 65536 * d[off + 3],
            (fuel - 1) as nat,
        ),
        d[off] != 1 ==> qq_location_start(d, off, fuel) == Ok::<int, ()>(off),
{
}

// ---------------------------------------------------------------------------
// What the search finds

/// The first address of the range of index record `i`.
pub open spec fn qq_range_first(d: Seq<u8>, istart: int, i: int) -> int {
    le_u32(d, qq_index_pos(istart, i))
}

/// The offset of the range record of index record `i`.
pub open spec fn qq_range_record(d: Seq<u8>, istart: int, i: int) -> int {
    le_u24(d, qq_index_pos(istart, i) + 4)
}

/// The last address of the range of index record `i`.
pub open spec fn qq_range_last(d: Seq<u8>, istart: int, i: int) -> int {
    le_u32(d, qq_range_record(d, istart, i))
}

/// Whether index record `i` and the last address of its range lie inside
/// the buffer.
pub open spec fn qq_range_readable(d: Seq<u8>, istart: int, i: int) -> bool {
    &&& qq_index_pos(istart, i) <= u32::MAX
    &&& qq_index_pos(istart, i) + 7 <= d.len()
    &&& qq_range_record(d, istart, i) + 4 <= d.len()
}

/// Whether the ranges of index records `0..n` are readable, each non-empty,
/// and in ascending order without overlap.
pub open spec fn qq_ranges_ordered(d: Seq<u8>, istart: int, n: int) -> bool {
    &&& forall|i: int| 0 <= i < n ==> #[trigger] qq_range_readable(d, istart, i)
    &&& forall|i: int|
        0 <= i < n ==> #[trigger] qq_range_first(d, istart, i) <= qq_range_last(d, istart, i)
    &&& forall|i: int, j: int|
        0 <= i < j < n ==> #[trigger] qq_range_last(d, istart, i) < #[trigger] qq_range_first(
            d,
            istart,
            j,
        )
}

/// Whether the range of index record `i` holds `ip`.
pub open spec fn qq_range_holds(d: Seq<u8>, istart: int, i: int, ip: u32) -> bool {
    qq_range_first(d, istart, i) <= ip <= qq_range_last(d, istart, i)
}

/// The last of the index records `0..n` whose range holds `ip`.
pub open spec fn qq_range_of(d: Seq<u8>, istart: int, ip: u32, n: nat) -> Option<int>
    decreases n,
{
    if n == 0 {
        None
    } else if qq_range_holds(d, istart, n - 1, ip) {
        Some(n - 1)
    } else {
        qq_range_of(d, istart, ip, (n - 1) as nat)
    }
}

/// Index record `i` stands at `p = istart + 7 * i`: the first address of
/// its range is the 32-bit little-endian integer in `d[p..p + 4]`, the
/// offset of its range record the 24-bit little-endian integer in
/// `d[p + 4..p + 7]`, and the last address of the range the 32-bit
/// little-endian integer at the start of that range record.
pub proof fn lemma_index_record_bytes(d: Seq<u8>, istart: int, i: int)
    ensures
        ({
            let p = istart + 7 * i;
            let r = d[p + 4] + 256 * d[p + 5] + 65536 * d[p + 6];
            &&& qq_range_first(d, istart, i) == d[p] + 256 * d[p + 1] + 65536 * d[p + 2] + 16777216
                * d[p + 3]
            &&& qq_range_record(d, istart, i) == r
            &&& qq_range_last(d, istart, i) == d[r] + 256 * d[r + 1] + 65536 * d[r + 2] + 16777216
                * d[r + 3]
        }),
{
    assert(qq_index_pos(istart, i) == istart + 7 * i);
}

/// The range found for `ip` among the index records `0..n` is the last one
/// that holds `ip`; none is found exactly where none holds it.
pub proof fn lemma_range_of_is_last(d: Seq<u8>, istart: int, ip: u32, n: nat)
    ensures
        match qq_range_of(d, istart, ip, n) {
            Some(i) => 0 <= i < n && qq_range_holds(d, istart, i, ip) && forall|j: int|
                i < j < n ==> !#[trigger] qq_range_holds(d, istart, j, ip),
            None => forall|j: int| 0 <= j < n ==> !#[trigger] qq_range_holds(d, istart, j, ip),
        },
    decreases n,
{
    if n > 0 {
        lemma_range_of_is_last(d, istart, ip, (n - 1) as nat);
    }
}

proof fn lemma_range_of_none(d: Seq<u8>, istart: int, ip: u32, n: nat)
    requires
        forall|j: int| 0 <= j < n ==> !#[trigger] qq_range_holds(d, istart, j, ip),
    ensures
        qq_range_of(d, istart, ip, n) is None,
    decreases n,
{
    if n > 0 {
        lemma_range_of_none(d, istart, ip, (n - 1) as nat);
    }
}

proof fn lemma_range_of_some(d: Seq<u8>, istart: int, ip: u32, m: int, n: nat)
    requires
        0 <= m < n,
        qq_range_holds(d, istart, m, ip),
        forall|j: int| m < j < n ==> !#[trigger] qq_range_holds(d, istart, j, ip),
    ensures
        qq_range_of(d, istart, ip, n) == Some(m),
    decreases n,
{
    if n - 1 > m {
        lemma_range_of_some(d, istart, ip, m, (n - 1) as nat);
    }
}

proof fn lemma_qq_search_range(d: Seq<u8>, istart: int, ip: u32, n: int, l: int, r: int)
    requires
        qq_ranges_ordered(d, istart, n),
        0 <= l <= r + 1,
        r < n,
        ip >= qq_range_first(d, istart, 0),
        forall|j: int| 0 <= j < l ==> #[trigger] qq_range_last(d, istart, j) < ip,
        forall|j: int| r < j < n ==> #[trigger] qq_range_first(d, istart, j) > ip,
    ensures
        qq_search(d, istart, ip, l, r) == match qq_range_of(d, istart, ip, n as nat) {
            Some(i) => match qq_read_location(d, qq_range_record(d, istart, i) + 4) {
                Ok(loc) => Ok(Some(loc)),
                Err(_) => Err(()),
            },
            None => Ok(None),
        },
    decreases r - l + 1,
{
    if l > r {
        assert forall|j: int| 0 <= j < n implies !#[trigger] qq_range_holds(d, istart, j, ip) by {
            if j >= l {
                assert(qq_range_first(d, istart, j) > ip);
            } else {
                assert(qq_range_last(d, istart, j) < ip);
            }
        }
        lemma_range_of_none(d, istart, ip, n as nat);
    } else {
        let m = (l + r) / 2;
        assert(qq_range_readable(d, istart, m));
        if ip < qq_range_first(d, istart, m) {
            if m == 0 {
                assert(false);
            }
            assert forall|j: int| m - 1 < j < n implies #[trigger] qq_range_first(d, istart, j)
                > ip by {
                if m < j {
                    assert(qq_range_first(d, istart, m) <= qq_range_last(d, istart, m));
                    assert(qq_range_last(d, istart, m) < qq_range_first(d, istart, j));
                }
            }
            lemma_qq_search_range(d, istart, ip, n, l, m - 1);
        } else if ip <= qq_range_last(d, istart, m) {
            assert forall|j: int| m < j < n implies !#[trigger] qq_range_holds(d, istart, j, ip) by {
                assert(qq_range_last(d, istart, m) < qq_range_first(d, istart, j));
            }
            lemma_range_of_some(d, istart, ip, m, n as nat);
        } else {
            assert forall|j: int| 0 <= j < m + 1 implies #[trigger] qq_range_last(d, istart, j)
                < ip by {
                if j < m {
                    assert(qq_range_last(d, istart, j) < qq_range_first(d, istart, m));
                }
            }
            lemma_qq_search_range(d, istart, ip, n, m + 1, r);
        }
    }
}

/// On a database whose index records `0..=r` are readable and whose ranges
/// ascend without overlap, the search for an address at or above the first
/// range finds the location of the range that holds the address, and
/// nothing where no range holds it.
pub proof fn lemma_search_finds_range(d: Seq<u8>, istart: int, ip: u32, r: int)
    requires
        0 <= r,
        qq_ranges_ordered(d, istart, r + 1),
        ip >= qq_range_first(d, istart, 0),
    ensures
        qq_search(d, istart, ip, 0, r) == match qq_range_of(d, istart, ip, (r + 1) as nat) {
            Some(i) => match qq_read_location(d, qq_range_record(d, istart, i) + 4) {
                Ok(loc) => Ok(Some(loc)),
                Err(_) => Err(()),
            },
            None => Ok(None),
        },
{
    lemma_qq_search_range(d, istart, ip, r + 1, 0, r);
}

impl IpLocation {
    /// The location as (country, area).
    pub open spec fn view_pair(&self) -> (Seq<char>, Seq<char>) {
        (self.country@, self.area@)
    }
}

impl QQWryParser {
    /// The database's bytes.
    pub closed spec fn bytes(&self) -> Seq<u8> {
        self.data@
    }

    /// The offset of the first index record, from the header.
    pub closed spec fn first_index(&self) -> u32 {
        self.index_start
    }

    /// The offset of the last index record, from the header.
    pub closed spec fn last_index(&self) -> u32 {
        self.index_end
    }

    /// Opens the database held in `data`; fails when the header is cut short.
    pub fn new(data: Vec<u8>) -> (r: Result<QQWryParser, DbError>)
        ensures
            data@.len() < 8 <==> r is Err,
            r is Err ==> r == Err::<QQWryParser, DbError>(DbError::UnexpectedEof),
            r matches Ok(p) ==> {
                &&& p.bytes() == data@
                &&& p.first_index() == le_u32(data@, 0)
                &&& p.last_index() == le_u32(data@, 4)
            },
    {
        if data.len() < 4 {
            return Err(DbError::UnexpectedEof);
        }
        let index_start = read_le_u32_at(data.as_slice(), 0);
        if data.len() < 8 {
            return Err(DbError::UnexpectedEof);
        }
        let index_end = read_le_u32_at(data.as_slice(), 4);
        Ok(QQWryParser { data, index_start, index_end })
    }

    /// The 24-bit little-endian integer at `offset`.
    pub fn read_u24(&self, offset: usize) -> (v: u32)
        requires
            offset + 3 <= self.bytes().len(),
        ensures
            v as int == le_u24(self.bytes(), offset as int),
    {
        read_le_u24(self.data.as_slice(), offset)
    }

    /// The NUL-terminated string at `offset`, decoded from GBK, and the
    /// position after its terminator.
    fn read_string(&self, offset: usize) -> (r: Result<(String, usize), DbError>)
        ensures
            match r {
                Ok((s, next)) => qq_read_string(self.bytes(), offset as int) == Ok::<_, ()>(
                    (s@, next as int),
                ),
                Err(_) => qq_read_string(self.bytes(), offset as int) is Err,
            },
    {
        let ghost d = self.bytes();
        let len = self.data.len();
        if offset >= len {
            return Err(DbError::Corrupt);
        }
        let mut end = offset;
        while end < len && self.data[end] != 0
            invariant
                len == d.len(),
                d == self.data@,
                offset <= end <= len,
                find_nul(d, offset as int) == find_nul(d, end as int),
            decreases len - end,
        {
            end = end + 1;
        }
        if end == len {
            return Err(DbError::Corrupt);
        }
        if end - offset > MAX_TEXT_BYTES {
            return Err(DbError::Corrupt);
        }
        let s = decode_gbk(&self.data.as_slice()[offset..end]);
        Ok((s, end + 1))
    }

    /// The country or area field at `offset` and the position after it;
    /// `Err` where the field reaches past the buffer.
    pub fn checked_read_area(&self, offset: usize) -> (r: Result<(String, usize), DbError>)
        ensures
            match r {
                Ok((s, next)) => qq_read_area(self.bytes(), offset as int) == Ok::<_, ()>(
                    (s@, next as int),
                ),
                Err(_) => qq_read_area(self.bytes(), offset as int) is Err,
            },
    {
        let len = self.data.len();
        if offset >= len {
            return Err(DbError::Corrupt);
        }
        let mode = self.data[offset];
        if mode == 0x01 || mode == 0x02 {
            if len - offset < 4 {
                return Err(DbError::Corrupt);
            }
            let off = self.read_u24(offset + 1) as usize;
            match self.read_string(off) {
                Ok((s, _)) => Ok((s, offset + 4)),
                Err(e) => Err(e),
            }
        } else {
            self.read_string(offset)
        }
    }

    /// The country or area field at `offset` and the position after it.
    pub fn read_area(&self, offset: usize) -> (r: (String, usize))
        requires
            qq_read_area(self.bytes(), offset as int) is Ok,
        ensures
            qq_read_area(self.bytes(), offset as int) == Ok::<_, ()>((r.0@, r.1 as int)),
    {
        match self.checked_read_area(offset) {
            Ok(r) => r,
            Err(_) => (String::new(), 0),
        }
    }

    /// The location at `offset`, redirections followed; `Err` where it
    /// reaches past the buffer or its redirections go round in a cycle.
    pub fn checked_read_location(&self, offset: usize) -> (r: Result<IpLocation, DbError>)
        ensures
            match r {
                Ok(loc) => qq_read_location(self.bytes(), offset as int) == Ok::<_, ()>(
                    loc.view_pair(),
                ),
                Err(_) => qq_read_location(self.bytes(), offset as int) is Err,
            },
    {
        let ghost d = self.bytes();
        let len = self.data.len();
        let mut off = offset;
        let mut fuel = len;
        loop
            invariant_except_break
                len == d.len(),
                d == self.data@,
                fuel <= len,
                qq_location_start(d, off as int, fuel as nat) == qq_location_start(
                    d,
                    offset as int,
                    d.len(),
                ),
            ensures
                qq_location_start(d, offset as int, d.len()) == Ok::<int, ()>(off as int),
            decreases fuel,
        {
            if off >= len {
                return Err(DbError::Corrupt);
            }
            if self.data[off] == 0x01 {
                if len - off < 4 || fuel == 0 {
                    return Err(DbError::Corrupt);
                }
                off = self.read_u24(off + 1) as usize;
                fuel = fuel - 1;
            } else {
                break;
            }
        }
        let (country, next) = match self.checked_read_area(off) {
            Ok(v) => v,
            Err(e) => return Err(e),
        };
        let (area, _) = match self.checked_read_area(next) {
            Ok(v) => v,
            Err(e) => return Err(e),
        };
        Ok(IpLocation { country, area })
    }

    /// The location at `offset`, redirections followed.
    pub fn read_location(&self, offset: usize) -> (r: IpLocation)
        requires
            qq_read_location(self.bytes(), offset as int) is Ok,
        ensures
            qq_read_location(self.bytes(), offset as int) == Ok::<_, ()>(r.view_pair()),
    {
        match self.checked_read_location(offset) {
            Ok(r) => r,
            Err(_) => IpLocation { country: String::new(), area: String::new() },
        }
    }

    /// The address that the dotted text `ip` denotes, if any.
    pub fn ip_to_u32(&self, ip: &str) -> (r: Option<u32>)
        ensures
            r == ipv4_value(ip@),
    {
        let n = ip.unicode_len();
        let mut parts: Vec<u32> = Vec::new();
        let mut start: usize = 0;
        let mut i: usize = 0;
        while i < n
            invariant
                n == ip@.len(),
                start <= i <= n,
                split_dots(ip@.subrange(0, i as int)).len() >= 1,
                split_dots(ip@.subrange(0, i as int)).last() == ip@.subrange(start as int, i as int),
                parts@ == parsed_numbers(split_dots(ip@.subrange(0, i as int)).drop_last()),
            decreases n - i,
        {
            let ghost before = split_dots(ip@.subrange(0, i as int));
            assert(ip@.subrange(0, i + 1).drop_last() =~= ip@.subrange(0, i as int));
            if ip.get_char(i) == '.' {
                let piece = parse_u32_piece(ip, start, i);
                if let Some(v) = piece {
                    parts.push(v);
                }
                assert(split_dots(ip@.subrange(0, i + 1)).drop_last() =~= before);
                assert(ip@.subrange(i + 1, i + 1) =~= Seq::<char>::empty());
                start = i + 1;
            } else {
                assert(split_dots(ip@.subrange(0, i + 1)).drop_last() =~= before.drop_last());
                assert(ip@.subrange(start as int, i + 1) =~= ip@.subrange(start as int, i as int).push(
                    ip@[i as int],
                ));
            }
            i = i + 1;
        }
        assert(ip@.subrange(0, n as int) =~= ip@);
        let last = parse_u32_piece(ip, start, n);
        if let Some(v) = last {
            parts.push(v);
        }
        if parts.len() == 4 {
            Some((parts[0] << 24) | (parts[1] << 16) | (parts[2] << 8) | parts[3])
        } else {
            None
        }
    }

    /// Looks up the dotted IPv4 text `ip`: the location of the range that
    /// holds it, `None` where the text is no address or no range holds it;
    /// `Err` where the search reaches past the buffer or its arithmetic
    /// overflows.
    pub fn checked_lookup(&self, ip: &str) -> (r: Result<Option<IpLocation>, DbError>)
        ensures
            match r {
                Ok(Some(loc)) => qq_lookup(
                    self.bytes(),
                    self.first_index(),
                    self.last_index(),
                    ip@,
                ) == Ok::<_, ()>(Some(loc.view_pair())),
                Ok(None) => qq_lookup(self.bytes(), self.first_index(), self.last_index(), ip@)
                    == Ok::<Option<(Seq<char>, Seq<char>)>, ()>(None),
                Err(_) => qq_lookup(self.bytes(), self.first_index(), self.last_index(), ip@) is Err,
            },
    {
        let ghost d = self.bytes();
        let v = match self.ip_to_u32(ip) {
            Some(v) => v,
            None => return Ok(None),
        };
        if self.index_end < self.index_start {
            return Err(DbError::Corrupt);
        }
        let len = self.data.len();
        let ghost r0 = ((self.index_end - self.index_start) / 7) as int;
        let mut l: u32 = 0;
        let mut r: u32 = (self.index_end - self.index_start) / 7;
        while l <= r
            invariant
                len == d.len(),
                d == self.data@,
                r <= u32::MAX / 7,
                l <= r + 1,
                ipv4_value(ip@) == Some(v),
                self.index_start <= self.index_end,
                r0 == (self.index_end - self.index_start) / 7,
                qq_search(d, self.index_start as int, v, l as int, r as int) == qq_search(
                    d,
                    self.index_start as int,
                    v,
                    0,
                    r0,
                ),
            decreases r - l + 1,
        {
            let m = (l + r) / 2;
            if self.index_start as u64 + m as u64 * 7 > u32::MAX as u64 {
                return Err(DbError::Corrupt);
            }
            let pos = (self.index_start + m * 7) as usize;
            if len < 4 || pos > len - 4 {
                return Err(DbError::Corrupt);
            }
            let start_ip = read_le_u32_at(self.data.as_slice(), pos);
            if v < start_ip {
                if m == 0 {
                    return Err(DbError::Corrupt);
                }
                r = m - 1;
            } else {
                if len - pos < 7 {
                    return Err(DbError::Corrupt);
                }
                let offset = self.read_u24(pos + 4) as usize;
                if offset + 4 > len {
                    return Err(DbError::Corrupt);
                }
                let end_ip = read_le_u32_at(self.data.as_slice(), offset);
                if v <= end_ip {
                    return match self.checked_read_location(offset + 4) {
                        Ok(loc) => Ok(Some(loc)),
                        Err(e) => Err(e),
                    };
                }
                l = m + 1;
            }
        }
        Ok(None)
    }

    /// Looks up the dotted IPv4 text `ip`: the location of the range that
    /// holds it, `None` where the text is no address or no range holds it.
    pub fn lookup(&self, ip: &str) -> (r: Option<IpLocation>)
        requires
            qq_lookup(self.bytes(), self.first_index(), self.last_index(), ip@) is Ok,
        ensures
            match r {
                Some(loc) => qq_lookup(self.bytes(), self.first_index(), self.last_index(), ip@)
                    == Ok::<_, ()>(Some(loc.view_pair())),
                None => qq_lookup(self.bytes(), self.first_index(), self.last_index(), ip@)
                    == Ok::<Option<(Seq<char>, Seq<char>)>, ()>(None),
            },
    {
        match self.checked_lookup(ip) {
            Ok(r) => r,
            Err(_) => None,
        }
    }
}

} // verus!
