//! Text handling shared by the database readers: decoding of stored byte
//! strings, Unicode whitespace trimming and joining.

use encoding_rs::GBK;
use vstd::prelude::*;

verus! {

/// Longest byte string the readers hand to a decoder.  The decoders size
/// their output buffer from the input length, up to three times as long
/// and doubled when it grows, and panic where that size passes `isize::MAX`.
pub const MAX_TEXT_BYTES: usize = usize::MAX / 16;

/// What `encoding_rs`'s `GBK.decode` yields for `bytes` (the decoding with
/// BOM sniffing and malformed sequences replaced by U+FFFD).
pub uninterp spec fn gbk_decode(bytes: Seq<u8>) -> Seq<char>;

/// What `String::from_utf8_lossy` yields for `bytes`.
pub uninterp spec fn utf8_lossy(bytes: Seq<u8>) -> Seq<char>;

/// `encoding_rs::GBK.decode(bytes)`, keeping the decoded text.  The contract
/// claims that the text is a function of the bytes alone; what that function
/// is (GBK with BOM sniffing) is not stated.
#[verifier::external_body]
pub(crate) fn decode_gbk(bytes: &[u8]) -> (s: String)
    requires
        bytes@.len() <= MAX_TEXT_BYTES,
    ensures
        s@ == gbk_decode(bytes@),
{
    let (text, _, _) = GBK.decode(bytes);
    text.into_owned()
}

/// `String::from_utf8_lossy(bytes)`, owned.  The contract claims that the
/// text is a function of the bytes, and, as std documents, that valid UTF-8
/// is decoded unchanged; how invalid sequences are replaced is not stated.
#[verifier::external_body]
pub(crate) fn decode_utf8_lossy(bytes: &[u8]) -> (s: String)
    requires
        bytes@.len() <= MAX_TEXT_BYTES,
    ensures
        s@ == utf8_lossy(bytes@),
        vstd::utf8::valid_utf8(bytes@) ==> s@ == vstd::utf8::decode_utf8(bytes@),
{
    String::from_utf8_lossy(bytes).into_owned()
}

/// The characters with the Unicode `White_Space` property, which is what
/// `char::is_whitespace` and `str::trim` go by.
pub open spec fn is_white_space(c: char) -> bool {
    let u = c as u32;
    ||| 0x09 <= u <= 0x0d
    ||| u == 0x20
    ||| u == 0x85
    ||| u == 0xa0
    ||| u == 0x1680
    ||| 0x2000 <= u <= 0x200a
    ||| u == 0x2028
    ||| u == 0x2029
    ||| u == 0x202f
    ||| u == 0x205f
    ||| u == 0x3000
}

/// `s` without its leading whitespace.
pub open spec fn trim_start(s: Seq<char>) -> Seq<char>
    decreases s.len(),
{
    if s.len() > 0 && is_white_space(s[0]) {
        trim_start(s.drop_first())
    } else {
        s
    }
}

/// `s` without its trailing whitespace.
pub open spec fn trim_end(s: Seq<char>) -> Seq<char>
    decreases s.len(),
{
    if s.len() > 0 && is_white_space(s.last()) {
        trim_end(s.drop_last())
    } else {
        s
    }
}

/// `s` without leading and trailing whitespace, as `str::trim` gives it.
pub open spec fn trim(s: Seq<char>) -> Seq<char> {
    trim_end(trim_start(s))
}

/// What `trim_start` leaves is empty or starts with a non-whitespace
/// character.
proof fn lemma_trim_start_front(s: Seq<char>)
    ensures
        trim_start(s).len() == 0 || !is_white_space(trim_start(s)[0]),
    decreases s.len(),
{
    if s.len() > 0 && is_white_space(s[0]) {
        lemma_trim_start_front(s.drop_first());
    }
}

/// What `trim_end` leaves is a prefix of `s`, empty or ending with a
/// non-whitespace character.
proof fn lemma_trim_end_prefix(s: Seq<char>)
    ensures
        trim_end(s).len() <= s.len(),
        trim_end(s) == s.subrange(0, trim_end(s).len() as int),
        trim_end(s).len() == 0 || !is_white_space(trim_end(s).last()),
    decreases s.len(),
{
    if s.len() > 0 && is_white_space(s.last()) {
        lemma_trim_end_prefix(s.drop_last());
        assert(s.drop_last().subrange(0, trim_end(s).len() as int) =~= s.subrange(
            0,
            trim_end(s).len() as int,
        ));
    } else {
        assert(s.subrange(0, s.len() as int) =~= s);
    }
}

/// What `trim` leaves is empty or starts and ends with non-whitespace
/// characters.
pub proof fn lemma_trim_ends(s: Seq<char>)
    ensures
        trim(s).len() == 0 || (!is_white_space(trim(s)[0]) && !is_white_space(trim(s).last())),
{
    let u = trim_start(s);
    lemma_trim_start_front(s);
    lemma_trim_end_prefix(u);
    if trim(s).len() > 0 {
        assert(trim(s)[0] == u.subrange(0, trim(s).len() as int)[0]);
    }
}

/// A text that is empty or starts and ends with non-whitespace characters
/// is its own trim.
pub proof fn lemma_trim_of_trimmed(s: Seq<char>)
    requires
        s.len() == 0 || (!is_white_space(s[0]) && !is_white_space(s.last())),
    ensures
        trim(s) == s,
{
}

/// Blanking line feeds and tabs keeps a trimmed text trimmed: a trimmed
/// text neither starts nor ends with a line feed or a tab.
pub proof fn lemma_blank_line_breaks_trimmed(s: Seq<char>)
    ensures
        trim(blank_line_breaks(trim(s))) == blank_line_breaks(trim(s)),
{
    lemma_trim_ends(s);
    lemma_trim_of_trimmed(blank_line_breaks(trim(s)));
}

/// The pieces of `parts`, in order, with `sep` between each two of them.
pub open spec fn join(parts: Seq<Seq<char>>, sep: Seq<char>) -> Seq<char>
    decreases parts.len(),
{
    if parts.len() == 0 {
        Seq::empty()
    } else if parts.len() == 1 {
        parts[0]
    } else {
        join(parts.drop_last(), sep) + sep + parts.last()
    }
}

/// Whether `c` is a whitespace character.
pub fn is_white_space_char(c: char) -> (b: bool)
    ensures
        b == is_white_space(c),
{
    let u = c as u32;
    (0x09 <= u && u <= 0x0d) || u == 0x20 || u == 0x85 || u == 0xa0 || u == 0x1680 || (0x2000
        <= u && u <= 0x200a) || u == 0x2028 || u == 0x2029 || u == 0x202f || u == 0x205f || u
        == 0x3000
}

/// `s` with leading and trailing whitespace removed.
pub fn trim_to_string(s: &str) -> (r: String)
    ensures
        r@ == trim(s@),
{
    let n = s.unicode_len();
    let mut i: usize = 0;
    assert(s@.subrange(0, n as int) =~= s@);
    while i < n && is_white_space_char(s.get_char(i))
        invariant
            n == s@.len(),
            i <= n,
            trim_start(s@) == trim_start(s@.subrange(i as int, n as int)),
        decreases n - i,
    {
        assert(s@.subrange(i as int, n as int).drop_first() =~= s@.subrange(i + 1, n as int));
        i = i + 1;
    }
    assert(trim_start(s@) == s@.subrange(i as int, n as int));
    let mut j: usize = n;
    while j > i && is_white_space_char(s.get_char(j - 1))
        invariant
            n == s@.len(),
            i <= j <= n,
            trim(s@) == trim_end(s@.subrange(i as int, j as int)),
        decreases j,
    {
        assert(s@.subrange(i as int, j as int).drop_last() =~= s@.subrange(i as int, j - 1));
        j = j - 1;
    }
    let t = s.substring_char(i, j);
    t.to_owned()
}

/// The strings of `parts` joined with single spaces.
pub fn join_with_spaces(parts: &Vec<String>) -> (r: String)
    ensures
        r@ == join(parts@.map_values(|p: String| p@), seq![' ']),
{
    let ghost views = parts@.map_values(|p: String| p@);
    let mut r = String::new();
    let mut k: usize = 0;
    while k < parts.len()
        invariant
            k <= parts.len(),
            views == parts@.map_values(|p: String| p@),
            r@ == join(views.take(k as int), seq![' ']),
        decreases parts.len() - k,
    {
        assert(views.take(k + 1).drop_last() =~= views.take(k as int));
        assert(views.take(k + 1).last() == parts@[k as int]@);
        let ghost before = r@;
        if k > 0 {
            proof {
                reveal_strlit(" ");
            }
            r.append(" ");
        }
        r.append(parts[k].as_str());
        assert(k == 0 ==> before =~= Seq::<char>::empty() && r@ =~= views.take(k + 1)[0]);
        k = k + 1;
    }
    assert(views.take(parts.len() as int) =~= views);
    r
}

/// `s` with every non-overlapping occurrence of `pat`, taken from the left,
/// replaced by `rep`.  For a non-empty `pat` this is what `str::replace`
/// gives; an empty `pat` leaves `s` unchanged.
pub open spec fn replace_all(s: Seq<char>, pat: Seq<char>, rep: Seq<char>) -> Seq<char>
    decreases s.len(),
{
    if s.len() == 0 {
        Seq::empty()
    } else if 0 < pat.len() <= s.len() && s.subrange(0, pat.len() as int) == pat {
        rep + replace_all(s.skip(pat.len() as int), pat, rep)
    } else {
        seq![s[0]] + replace_all(s.drop_first(), pat, rep)
    }
}

/// Replacing leaves a front part in which no occurrence of `pat` starts
/// as it is.
pub proof fn lemma_replace_all_keeps_front(x: Seq<char>, y: Seq<char>, pat: Seq<char>, rep: Seq<char>)
    requires
        forall|i: int|
            0 <= i < x.len() ==> !(0 < pat.len() && i + pat.len() <= (x + y).len() && #[trigger] (x
                + y).subrange(i, i + pat.len()) == pat),
    ensures
        replace_all(x + y, pat, rep) == x + replace_all(y, pat, rep),
    decreases x.len(),
{
    if x.len() == 0 {
        assert(x + y =~= y);
        assert(x + replace_all(y, pat, rep) =~= replace_all(y, pat, rep));
    } else {
        let s = x + y;
        let x1 = x.drop_first();
        assert(s.drop_first() =~= x1 + y);
        let z: int = 0;
        assert(!(0 < pat.len() && z + pat.len() <= (x + y).len() && (x + y).subrange(z, z + pat.len())
            == pat));
        assert(s.subrange(0, pat.len() as int) == (x + y).subrange(z, z + pat.len()));
        assert(s[0] == x[0]);
        assert forall|i: int|
            0 <= i < x1.len() implies !(0 < pat.len() && i + pat.len() <= (x1 + y).len() && #[trigger] (x1
            + y).subrange(i, i + pat.len()) == pat) by {
            if 0 < pat.len() && i + pat.len() <= (x1 + y).len() {
                assert((x1 + y).subrange(i, i + pat.len()) =~= s.subrange(i + 1, i + 1 + pat.len()));
            }
        }
        lemma_replace_all_keeps_front(x1, y, pat, rep);
        assert(seq![s[0]] + (x1 + replace_all(y, pat, rep)) =~= x + replace_all(y, pat, rep));
    }
}

/// Trimming the end of a text that starts with `x`, whose last character
/// is no whitespace, keeps `x` in front.
pub proof fn lemma_trim_end_keeps_front(x: Seq<char>, y: Seq<char>)
    requires
        x.len() > 0,
        !is_white_space(x.last()),
    ensures
        trim_end(x + y).len() >= x.len(),
        trim_end(x + y).take(x.len() as int) == x,
    decreases y.len(),
{
    if y.len() == 0 {
        assert(x + y =~= x);
        assert(x.take(x.len() as int) =~= x);
    } else if is_white_space(y.last()) {
        assert((x + y).drop_last() =~= x + y.drop_last());
        lemma_trim_end_keeps_front(x, y.drop_last());
    } else {
        assert((x + y).take(x.len() as int) =~= x);
    }
}

/// `s` with every line feed and tab replaced by a space.
pub open spec fn blank_line_breaks(s: Seq<char>) -> Seq<char> {
    s.map_values(|c: char| if c == '\n' || c == '\t' { ' ' } else { c })
}

/// The decimal digits of `n`, without leading zeros.
pub open spec fn decimal(n: nat) -> Seq<char>
    decreases n,
{
    if n < 10 {
        seq![(n + '0' as nat) as char]
    } else {
        decimal(n / 10) + seq![((n % 10) + '0' as nat) as char]
    }
}

/// Whether `pat` occurs in `s` at `i`.
fn occurs_at(s: &str, pat: &str, i: usize) -> (b: bool)
    requires
        i <= s@.len(),
    ensures
        b == (0 < pat@.len() && i + pat@.len() <= s@.len() && s@.subrange(
            i as int,
            i + pat@.len(),
        ) == pat@),
{
    let n = s.unicode_len();
    let m = pat.unicode_len();
    if m == 0 || m > n - i {
        return false;
    }
    let mut k: usize = 0;
    while k < m
        invariant
            n == s@.len(),
            m == pat@.len(),
            i + m <= n,
            k <= m,
            forall|j: int| 0 <= j < k ==> s@[i + j] == pat@[j],
        decreases m - k,
    {
        if s.get_char(i + k) != pat.get_char(k) {
            assert(s@.subrange(i as int, i + m)[k as int] != pat@[k as int]);
            return false;
        }
        k = k + 1;
    }
    assert(s@.subrange(i as int, i + m) =~= pat@);
    true
}

/// `s` with every non-overlapping occurrence of `pat` replaced by `rep`.
pub fn replace_text(s: &str, pat: &str, rep: &str) -> (r: String)
    ensures
        r@ == replace_all(s@, pat@, rep@),
{
    let n = s.unicode_len();
    let mut out = String::new();
    let mut i: usize = 0;
    assert(s@.skip(0) =~= s@);
    assert(out@ + replace_all(s@, pat@, rep@) =~= replace_all(s@, pat@, rep@));
    while i < n
        invariant
            n == s@.len(),
            i <= n,
            replace_all(s@, pat@, rep@) == out@ + replace_all(s@.skip(i as int), pat@, rep@),
        decreases n - i,
    {
        let ghost rest = s@.skip(i as int);
        if occurs_at(s, pat, i) {
            let m = pat.unicode_len();
            assert(rest.subrange(0, pat@.len() as int) =~= s@.subrange(i as int, i + pat@.len()));
            assert(rest.skip(pat@.len() as int) =~= s@.skip(i + m));
            out.append(rep);
            i = i + m;
        } else {
            let piece = s.substring_char(i, i + 1);
            assert(0 < pat@.len() <= rest.len() ==> rest.subrange(0, pat@.len() as int)
                =~= s@.subrange(i as int, i + pat@.len()));
            assert(rest.drop_first() =~= s@.skip(i + 1));
            assert(piece@ =~= seq![rest[0]]);
            out.append(piece);
            i = i + 1;
        }
    }
    assert(s@.skip(n as int) =~= Seq::<char>::empty());
    out
}

/// `s` with every line feed and tab replaced by a space.
pub fn blank_line_breaks_text(s: &str) -> (r: String)
    ensures
        r@ == blank_line_breaks(s@),
{
    let n = s.unicode_len();
    let mut out = String::new();
    let mut i: usize = 0;
    while i < n
        invariant
            n == s@.len(),
            i <= n,
            out@ == blank_line_breaks(s@.take(i as int)),
        decreases n - i,
    {
        let c = s.get_char(i);
        let ghost before = out@;
        if c == '\n' || c == '\t' {
            proof {
                reveal_strlit(" ");
            }
            out.append(" ");
        } else {
            out.append(s.substring_char(i, i + 1));
        }
        assert(out@ =~= blank_line_breaks(s@.take(i + 1)));
        i = i + 1;
    }
    assert(s@.take(n as int) =~= s@);
    out
}

/// The decimal digits of `n`.
pub fn decimal_text(n: u32) -> (r: String)
    ensures
        r@ == decimal(n as nat),
    decreases n,
{
    let digits = "0123456789";
    proof {
        reveal_strlit("0123456789");
    }
    let d = (n % 10) as usize;
    let last = digits.substring_char(d, d + 1);
    assert(last@ =~= seq![((n % 10) as nat + '0' as nat) as char]);
    if n < 10 {
        last.to_owned()
    } else {
        let mut r = decimal_text(n / 10);
        r.append(last);
        r
    }
}

} // verus!
