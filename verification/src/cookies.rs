//! The cookie jar: raw header ingestion, parsed attribute persistence, and
//! bulk reload.
//!
//! One raw `Set-Cookie`-style line is parsed into a record: `name=value`
//! taken from the leading segment (before the first `;`), then the whole
//! line scanned case-insensitively for the attribute tokens `path`,
//! `domain`, `expires`, `httponly` and `secure`, the first three with an
//! associated value. An `expires` value must match the fixed calendar form
//! `<weekday>, <day> <month> <year> <hour>:<minute>:<second> GMT` and is
//! stored as a unix timestamp.
use crate::db::{db_wf, Database, Row, TableData, TableSpec};
use crate::json::JsonValue;
use crate::kv::{kfind, kget, khas, kidx, kupsert, kwf, Keyed};
use crate::StoreError;
use vstd::prelude::*;

verus! {

broadcast use vstd::seq::group_seq_axioms, vstd::std_specs::vec::group_vec_axioms;

/// One parsed cookie, as persisted.
#[derive(Debug, PartialEq, Eq)]
pub struct CookieRow {
    pub name: String,
    pub value: String,
    pub path: Option<String>,
    pub domain: Option<String>,
    /// Unix seconds.
    pub expires: Option<i64>,
    pub httponly: bool,
    pub secure: bool,
}

/// The columns of the cookies table, in stored order.
#[derive(Clone, Copy, Debug, PartialEq, Eq, Structural)]
pub enum Cookies {
    Table,
    Name,
    Value,
    Path,
    Domain,
    Expires,
    Httponly,
    Secure,
}

// ---------------------------------------------------------------------------
// Character classes and trimming
// ---------------------------------------------------------------------------
/// Whitespace as trimming recognises it: the Unicode `White_Space`
/// characters, as `str::trim` strips them.
pub open spec fn is_ws(c: char) -> bool {
    let u = c as u32;
    ||| (9 <= u && u <= 13)
    ||| u == 32
    ||| u == 0x85
    ||| u == 0xA0
    ||| u == 0x1680
    ||| (0x2000 <= u && u <= 0x200A)
    ||| u == 0x2028
    ||| u == 0x2029
    ||| u == 0x202F
    ||| u == 0x205F
    ||| u == 0x3000
}

/// A word character, for the token boundary rule.
pub open spec fn is_word(c: char) -> bool {
    let u = c as u32;
    (97 <= u && u <= 122) || (65 <= u && u <= 90) || (48 <= u && u <= 57) || u == 95
}

/// `s` without leading whitespace.
pub open spec fn trim_front(s: Seq<char>) -> Seq<char>
    decreases s.len(),
{
    if s.len() > 0 && is_ws(s[0]) {
        trim_front(s.drop_first())
    } else {
        s
    }
}

/// `s` without trailing whitespace.
pub open spec fn trim_back(s: Seq<char>) -> Seq<char>
    decreases s.len(),
{
    if s.len() > 0 && is_ws(s.last()) {
        trim_back(s.drop_last())
    } else {
        s
    }
}

/// `s` without leading or trailing whitespace.
pub open spec fn trim_spec(s: Seq<char>) -> Seq<char> {
    trim_back(trim_front(s))
}

/// Dropping a whitespace prefix realises `trim_front`.
proof fn lemma_trim_front(s: Seq<char>, a: int)
    requires
        0 <= a <= s.len(),
        forall|j: int| 0 <= j < a ==> is_ws(s[j]),
        a == s.len() || !is_ws(s[a]),
    ensures
        trim_front(s) == s.subrange(a, s.len() as int),
    decreases s.len(),
{
    if a == 0 {
        assert(s.subrange(0, s.len() as int) =~= s);
    } else {
        assert(is_ws(s[0]));
        lemma_trim_front(s.drop_first(), a - 1);
        assert(s.drop_first().subrange(a - 1, s.drop_first().len() as int) =~= s.subrange(
            a,
            s.len() as int,
        ));
    }
}

/// Dropping a whitespace suffix realises `trim_back`.
proof fn lemma_trim_back(s: Seq<char>, b: int)
    requires
        0 <= b <= s.len(),
        forall|j: int| b <= j < s.len() ==> is_ws(s[j]),
        b == 0 || !is_ws(s[b - 1]),
    ensures
        trim_back(s) == s.subrange(0, b),
    decreases s.len(),
{
    if b == s.len() {
        assert(s.subrange(0, b) =~= s);
    } else {
        assert(is_ws(s.last()));
        lemma_trim_back(s.drop_last(), b);
        assert(s.drop_last().subrange(0, b) =~= s.subrange(0, b));
    }
}

/// Whether `c` trims away.
fn is_ws_exec(c: char) -> (r: bool)
    ensures
        r == is_ws(c),
{
    let u = c as u32;
    (9 <= u && u <= 13) || u == 32 || u == 0x85 || u == 0xA0 || u == 0x1680 || (0x2000 <= u && u
        <= 0x200A) || u == 0x2028 || u == 0x2029 || u == 0x202F || u == 0x205F || u == 0x3000
}

/// A copy of `s` with leading and trailing whitespace removed.
pub fn trim_str(s: &str) -> (r: String)
    ensures
        r@ == trim_spec(s@),
{
    let n = s.unicode_len();
    let mut a: usize = 0;
    while a < n && is_ws_exec(s.get_char(a))
        invariant
            n == s@.len(),
            a <= n,
            forall|j: int| 0 <= j < a ==> is_ws(s@[j]),
        decreases n - a,
    {
        a += 1;
    }
    let mut b: usize = n;
    while b > a && is_ws_exec(s.get_char(b - 1))
        invariant
            n == s@.len(),
            a <= b <= n,
            forall|j: int| b <= j < n ==> is_ws(s@[j]),
        decreases b,
    {
        b -= 1;
    }
    let out = s.substring_char(a, b).to_owned();
    proof {
        lemma_trim_front(s@, a as int);
        let f = s@.subrange(a as int, s@.len() as int);
        lemma_trim_back(f, b - a);
        assert(f.subrange(0, b - a) =~= s@.subrange(a as int, b as int));
        assert(forall|j: int| b - a <= j < f.len() ==> is_ws(f[j]));
    }
    out
}

// ---------------------------------------------------------------------------
// First occurrence of a character
// ---------------------------------------------------------------------------
/// Index of the first `c` at or after `q`, or the length when there is none.
pub open spec fn find_from(s: Seq<char>, q: int, c: char) -> int
    decreases s.len() - q,
{
    if q < 0 || q >= s.len() {
        s.len() as int
    } else if s[q] == c {
        q
    } else {
        find_from(s, q + 1, c)
    }
}

/// `find_from` finds the first occurrence and nothing before it.
pub proof fn lemma_find_from(s: Seq<char>, q: int, c: char)
    requires
        0 <= q <= s.len(),
    ensures
        q <= find_from(s, q, c) <= s.len(),
        find_from(s, q, c) < s.len() ==> s[find_from(s, q, c)] == c,
        forall|j: int| q <= j < find_from(s, q, c) ==> s[j] != c,
    decreases s.len() - q,
{
    if q < s.len() && s[q] != c {
        lemma_find_from(s, q + 1, c);
    }
}

/// The first `c` at or after `q`, or the length when there is none.
pub fn find_char(s: &str, n: usize, q: usize, c: char) -> (r: usize)
    requires
        n == s@.len(),
        q <= n,
    ensures
        r as int == find_from(s@, q as int, c),
        q <= r <= n,
{
    proof {
        lemma_find_from(s@, q as int, c);
    }
    let mut i: usize = q;
    while i < n
        invariant
            n == s@.len(),
            q <= i <= n,
            find_from(s@, q as int, c) == find_from(s@, i as int, c),
        decreases n - i,
    {
        if s.get_char(i) == c {
            return i;
        }
        i += 1;
    }
    n
}

// ---------------------------------------------------------------------------
// The leading name=value pair
// ---------------------------------------------------------------------------
/// The leading segment: everything before the first `;`.
pub open spec fn lead_seg(s: Seq<char>) -> Seq<char> {
    s.subrange(0, find_from(s, 0, ';'))
}

/// Whether the leading segment matches `name=value`: a nonempty name before
/// the first `=`, and a nonempty value after it.
pub open spec fn leading_valid(s: Seq<char>) -> bool {
    let seg = lead_seg(s);
    let e = find_from(seg, 0, '=');
    0 < e && e + 1 < seg.len()
}

/// The cookie name: the trimmed text before the first `=` of the leading
/// segment.
pub open spec fn cookie_name_spec(s: Seq<char>) -> Seq<char> {
    let seg = lead_seg(s);
    let e = find_from(seg, 0, '=');
    trim_spec(seg.subrange(0, e))
}

/// The cookie value: the trimmed text after the first `=` of the leading
/// segment.
pub open spec fn cookie_value_spec(s: Seq<char>) -> Seq<char> {
    let seg = lead_seg(s);
    let e = find_from(seg, 0, '=');
    trim_spec(seg.subrange(e + 1, seg.len() as int))
}

// ---------------------------------------------------------------------------
// The fixed expires format
// ---------------------------------------------------------------------------
/// Digit value, for `'0'..='9'`.
pub open spec fn dg(c: char) -> int {
    c as u32 - 48
}

/// Whether `c` is an ascii digit.
pub open spec fn is_digit(c: char) -> bool {
    48 <= c as u32 && c as u32 <= 57
}

/// Whether three characters spell a short weekday name.
pub open spec fn weekday_ok(a: char, b: char, c: char) -> bool {
    ||| (a == 'M' && b == 'o' && c == 'n')
    ||| (a == 'T' && b == 'u' && c == 'e')
    ||| (a == 'W' && b == 'e' && c == 'd')
    ||| (a == 'T' && b == 'h' && c == 'u')
    ||| (a == 'F' && b == 'r' && c == 'i')
    ||| (a == 'S' && b == 'a' && c == 't')
    ||| (a == 'S' && b == 'u' && c == 'n')
}

/// The month number for a short month name, or 0 when it is none.
pub open spec fn month_num(a: char, b: char, c: char) -> int {
    if a == 'J' && b == 'a' && c == 'n' {
        1
    } else if a == 'F' && b == 'e' && c == 'b' {
        2
    } else if a == 'M' && b == 'a' && c == 'r' {
        3
    } else if a == 'A' && b == 'p' && c == 'r' {
        4
    } else if a == 'M' && b == 'a' && c == 'y' {
        5
    } else if a == 'J' && b == 'u' && c == 'n' {
        6
    } else if a == 'J' && b == 'u' && c == 'l' {
        7
    } else if a == 'A' && b == 'u' && c == 'g' {
        8
    } else if a == 'S' && b == 'e' && c == 'p' {
        9
    } else if a == 'O' && b == 'c' && c == 't' {
        10
    } else if a == 'N' && b == 'o' && c == 'v' {
        11
    } else if a == 'D' && b == 'e' && c == 'c' {
        12
    } else {
        0
    }
}

/// Whether `y` is a leap year in the proleptic Gregorian calendar.
pub open spec fn is_leap(y: int) -> bool {
    (y % 4 == 0 && y % 100 != 0) || y % 400 == 0
}

/// Days in a month.
pub open spec fn days_in_month(y: int, m: int) -> int {
    if m == 2 {
        if is_leap(y) {
            29
        } else {
            28
        }
    } else if m == 4 || m == 6 || m == 9 || m == 11 {
        30
    } else {
        31
    }
}

/// Days from 1970-01-01 to the civil date `y-m-d` (negative before the
/// epoch). Computed 400 years ahead so that every intermediate value stays
/// nonnegative, then shifted back by one 400-year cycle of 146097 days.
pub open spec fn days_from_epoch(y: int, m: int, d: int) -> int {
    let yy = if m <= 2 {
        y + 399
    } else {
        y + 400
    };
    let era = yy / 400;
    let yoe = yy - era * 400;
    let mp = if m > 2 {
        m - 3
    } else {
        m + 9
    };
    let doy = (153 * mp + 2) / 5 + d - 1;
    let doe = yoe * 365 + yoe / 4 - yoe / 100 + doy;
    era * 146097 + doe - 719468 - 146097
}

/// The unix timestamp of `y-m-d h:mi:sec` UTC.
pub open spec fn unix_ts(y: int, m: int, d: int, h: int, mi: int, sec: int) -> int {
    days_from_epoch(y, m, d) * 86400 + h * 3600 + mi * 60 + sec
}

/// Parse the fixed calendar text `Wdy, DD Mon YYYY HH:MM:SS GMT` into a unix
/// timestamp; any other shape, or an impossible date or time, is rejected.
pub open spec fn parse_expires_spec(v: Seq<char>) -> Option<int> {
    if v.len() != 29 {
        None
    } else if !(weekday_ok(v[0], v[1], v[2]) && v[3] == ',' && v[4] == ' ' && is_digit(v[5])
        && is_digit(v[6]) && v[7] == ' ' && month_num(v[8], v[9], v[10]) != 0 && v[11] == ' '
        && is_digit(v[12]) && is_digit(v[13]) && is_digit(v[14]) && is_digit(v[15]) && v[16] == ' '
        && is_digit(v[17]) && is_digit(v[18]) && v[19] == ':' && is_digit(v[20]) && is_digit(v[21])
        && v[22] == ':' && is_digit(v[23]) && is_digit(v[24]) && v[25] == ' ' && v[26] == 'G'
        && v[27] == 'M' && v[28] == 'T') {
        None
    } else {
        let d = dg(v[5]) * 10 + dg(v[6]);
        let m = month_num(v[8], v[9], v[10]);
        let y = dg(v[12]) * 1000 + dg(v[13]) * 100 + dg(v[14]) * 10 + dg(v[15]);
        let h = dg(v[17]) * 10 + dg(v[18]);
        let mi = dg(v[20]) * 10 + dg(v[21]);
        let sec = dg(v[23]) * 10 + dg(v[24]);
        if 1 <= d && d <= days_in_month(y, m) && h <= 23 && mi <= 59 && sec <= 59 {
            Some(unix_ts(y, m, d, h, mi, sec))
        } else {
            None
        }
    }
}

/// Whether `c` is an ascii digit.
fn is_digit_exec(c: char) -> (r: bool)
    ensures
        r == is_digit(c),
{
    let u = c as u32;
    48 <= u && u <= 57
}

/// Digit value, for `'0'..='9'`.
fn dg_exec(c: char) -> (r: i64)
    requires
        is_digit(c),
    ensures
        r == dg(c),
        0 <= r <= 9,
{
    (c as u32 - 48) as i64
}

/// Parse a trimmed `expires` value in the fixed calendar format into unix
/// seconds; reject anything else with `MalformedExpiry`.
#[verifier::rlimit(100)]
pub fn parse_expires(v: &str) -> (r: Result<i64, StoreError>)
    ensures
        match r {
            Ok(t) => parse_expires_spec(v@) == Some(t as int),
            Err(e) => e == StoreError::MalformedExpiry && parse_expires_spec(v@) is None,
        },
{
    let n = v.unicode_len();
    if n != 29 {
        return Err(StoreError::MalformedExpiry);
    }
    let c0 = v.get_char(0);
    let c1 = v.get_char(1);
    let c2 = v.get_char(2);
    let wd_ok = (c0 == 'M' && c1 == 'o' && c2 == 'n') || (c0 == 'T' && c1 == 'u' && c2 == 'e') || (
    c0 == 'W' && c1 == 'e' && c2 == 'd') || (c0 == 'T' && c1 == 'h' && c2 == 'u') || (c0 == 'F'
        && c1 == 'r' && c2 == 'i') || (c0 == 'S' && c1 == 'a' && c2 == 't') || (c0 == 'S' && c1
        == 'u' && c2 == 'n');
    let m0 = v.get_char(8);
    let m1 = v.get_char(9);
    let m2 = v.get_char(10);
    let m: i64 = if m0 == 'J' && m1 == 'a' && m2 == 'n' {
        1
    } else if m0 == 'F' && m1 == 'e' && m2 == 'b' {
        2
    } else if m0 == 'M' && m1 == 'a' && m2 == 'r' {
        3
    } else if m0 == 'A' && m1 == 'p' && m2 == 'r' {
        4
    } else if m0 == 'M' && m1 == 'a' && m2 == 'y' {
        5
    } else if m0 == 'J' && m1 == 'u' && m2 == 'n' {
        6
    } else if m0 == 'J' && m1 == 'u' && m2 == 'l' {
        7
    } else if m0 == 'A' && m1 == 'u' && m2 == 'g' {
        8
    } else if m0 == 'S' && m1 == 'e' && m2 == 'p' {
        9
    } else if m0 == 'O' && m1 == 'c' && m2 == 't' {
        10
    } else if m0 == 'N' && m1 == 'o' && m2 == 'v' {
        11
    } else if m0 == 'D' && m1 == 'e' && m2 == 'c' {
        12
    } else {
        0
    };
    let shape_ok = wd_ok && v.get_char(3) == ',' && v.get_char(4) == ' ' && is_digit_exec(
        v.get_char(5),
    ) && is_digit_exec(v.get_char(6)) && v.get_char(7) == ' ' && m != 0 && v.get_char(11) == ' '
        && is_digit_exec(v.get_char(12)) && is_digit_exec(v.get_char(13)) && is_digit_exec(
        v.get_char(14),
    ) && is_digit_exec(v.get_char(15)) && v.get_char(16) == ' ' && is_digit_exec(v.get_char(17))
        && is_digit_exec(v.get_char(18)) && v.get_char(19) == ':' && is_digit_exec(v.get_char(20))
        && is_digit_exec(v.get_char(21)) && v.get_char(22) == ':' && is_digit_exec(v.get_char(23))
        && is_digit_exec(v.get_char(24)) && v.get_char(25) == ' ' && v.get_char(26) == 'G'
        && v.get_char(27) == 'M' && v.get_char(28) == 'T';
    if !shape_ok {
        return Err(StoreError::MalformedExpiry);
    }
    let d: i64 = dg_exec(v.get_char(5)) * 10 + dg_exec(v.get_char(6));
    let y: i64 = dg_exec(v.get_char(12)) * 1000 + dg_exec(v.get_char(13)) * 100 + dg_exec(
        v.get_char(14),
    ) * 10 + dg_exec(v.get_char(15));
    let h: i64 = dg_exec(v.get_char(17)) * 10 + dg_exec(v.get_char(18));
    let mi: i64 = dg_exec(v.get_char(20)) * 10 + dg_exec(v.get_char(21));
    let sec: i64 = dg_exec(v.get_char(23)) * 10 + dg_exec(v.get_char(24));
    let dim: i64 = if m == 2 {
        let leap = (y % 4 == 0 && y % 100 != 0) || y % 400 == 0;
        if leap {
            29
        } else {
            28
        }
    } else if m == 4 || m == 6 || m == 9 || m == 11 {
        30
    } else {
        31
    };
    proof {
        assert(dim == days_in_month(y as int, m as int));
    }
    if !(1 <= d && d <= dim && h <= 23 && mi <= 59 && sec <= 59) {
        return Err(StoreError::MalformedExpiry);
    }
    let yy: i64 = if m <= 2 {
        y + 399
    } else {
        y + 400
    };
    let era: i64 = yy / 400;
    let yoe: i64 = yy - era * 400;
    let mp: i64 = if m > 2 {
        m - 3
    } else {
        m + 9
    };
    let doy: i64 = (153 * mp + 2) / 5 + d - 1;
    let doe: i64 = yoe * 365 + yoe / 4 - yoe / 100 + doy;
    let days: i64 = era * 146097 + doe - 719468 - 146097;
    let ts: i64 = days * 86400 + h * 3600 + mi * 60 + sec;
    proof {
        assert(era == yy as int / 400);
        assert(doy == (153 * (mp as int) + 2) / 5 + d - 1);
        assert(doe as int == yoe * 365 + yoe as int / 4 - yoe as int / 100 + doy);
        assert(ts as int == unix_ts(y as int, m as int, d as int, h as int, mi as int, sec as int));
    }
    Ok(ts)
}

// ---------------------------------------------------------------------------
// Attribute tokens
// ---------------------------------------------------------------------------
/// The attribute tokens the scan recognises.
#[derive(Clone, Copy, Debug, PartialEq, Eq, Structural)]
pub enum AttrKind {
    Path,
    Domain,
    Expires,
    Httponly,
    Secure,
}

/// The characters of a token, lowercase.
pub open spec fn tok_seq(k: AttrKind) -> Seq<char> {
    match k {
        AttrKind::Path => seq!['p', 'a', 't', 'h'],
        AttrKind::Domain => seq!['d', 'o', 'm', 'a', 'i', 'n'],
        AttrKind::Expires => seq!['e', 'x', 'p', 'i', 'r', 'e', 's'],
        AttrKind::Httponly => seq!['h', 't', 't', 'p', 'o', 'n', 'l', 'y'],
        AttrKind::Secure => seq!['s', 'e', 'c', 'u', 'r', 'e'],
    }
}

/// Case-insensitive match of one character against a lowercase letter.
pub open spec fn matches_ci(c: char, t: char) -> bool {
    c == t || c as u32 + 32 == t as u32
}

/// Whether token `k` stands at position `i`, bounded by word boundaries on
/// both sides (so `path` inside `xpath` does not count).
pub open spec fn token_at(s: Seq<char>, i: int, k: AttrKind) -> bool {
    let t = tok_seq(k);
    &&& 0 <= i
    &&& i + t.len() <= s.len()
    &&& (i == 0 || !is_word(s[i - 1]))
    &&& (forall|j: int| 0 <= j < t.len() ==> matches_ci(s[i + j], t[j]))
    &&& (i + t.len() == s.len() || !is_word(s[i + t.len()]))
}

/// The token standing at position `i`, if any. The tokens begin with five
/// distinct letters, so at most one can stand at a position.
pub open spec fn token_kind_at(s: Seq<char>, i: int) -> Option<AttrKind> {
    if token_at(s, i, AttrKind::Path) {
        Some(AttrKind::Path)
    } else if token_at(s, i, AttrKind::Domain) {
        Some(AttrKind::Domain)
    } else if token_at(s, i, AttrKind::Expires) {
        Some(AttrKind::Expires)
    } else if token_at(s, i, AttrKind::Httponly) {
        Some(AttrKind::Httponly)
    } else if token_at(s, i, AttrKind::Secure) {
        Some(AttrKind::Secure)
    } else {
        None
    }
}

/// The raw associated value of a token at `i`: the text between a directly
/// following `=` and the next `;` (or the end); empty when no `=` follows.
pub open spec fn attr_raw_value(s: Seq<char>, i: int, k: AttrKind) -> Seq<char> {
    let e = i + tok_seq(k).len();
    if e < s.len() && s[e] == '=' {
        s.subrange(e + 1, find_from(s, e + 1, ';'))
    } else {
        Seq::empty()
    }
}

/// Where the scan resumes after a token at `i`: past the associated value
/// when there is one, else right after the token.
pub open spec fn attr_end(s: Seq<char>, i: int, k: AttrKind) -> int {
    let e = i + tok_seq(k).len();
    if e < s.len() && s[e] == '=' {
        find_from(s, e + 1, ';')
    } else {
        e
    }
}

/// The attributes a scan accumulates; a later occurrence of a token
/// overwrites an earlier one.
pub struct Attrs {
    pub path: Option<Seq<char>>,
    pub domain: Option<Seq<char>>,
    pub expires: Option<int>,
    pub httponly: bool,
    pub secure: bool,
}

/// No attribute seen yet.
pub open spec fn no_attrs() -> Attrs {
    Attrs { path: None, domain: None, expires: None, httponly: false, secure: false }
}

/// Scan `s` from position `p` for attribute tokens, left to right and
/// non-overlapping, folding each into `a`. An `expires` value that does not
/// parse fails the whole scan.
pub open spec fn scan_attrs(s: Seq<char>, p: int, a: Attrs) -> Option<Attrs>
    decreases s.len() - p,
{
    if p < 0 || p >= s.len() {
        Some(a)
    } else {
        match token_kind_at(s, p) {
            Some(k) => {
                let end0 = attr_end(s, p, k);
                let end = if p < end0 && end0 <= s.len() {
                    end0
                } else {
                    p + 1
                };
                let v = trim_spec(attr_raw_value(s, p, k));
                match k {
                    AttrKind::Path => scan_attrs(s, end, Attrs { path: Some(v), ..a }),
                    AttrKind::Domain => scan_attrs(s, end, Attrs { domain: Some(v), ..a }),
                    AttrKind::Expires => match parse_expires_spec(v) {
                        Some(t) => scan_attrs(s, end, Attrs { expires: Some(t), ..a }),
                        None => None,
                    },
                    AttrKind::Httponly => scan_attrs(s, end, Attrs { httponly: true, ..a }),
                    AttrKind::Secure => scan_attrs(s, end, Attrs { secure: true, ..a }),
                }
            },
            None => scan_attrs(s, p + 1, a),
        }
    }
}

/// The view of an optional stored string.
pub open spec fn opt_view(o: Option<String>) -> Option<Seq<char>> {
    match o {
        Some(s) => Some(s@),
        None => None,
    }
}

/// The mathematical value of an optional timestamp.
pub open spec fn opt_int(o: Option<i64>) -> Option<int> {
    match o {
        Some(t) => Some(t as int),
        None => None,
    }
}

/// The attributes a parsed cookie records.
pub open spec fn cookie_attrs(c: CookieRow) -> Attrs {
    Attrs {
        path: opt_view(c.path),
        domain: opt_view(c.domain),
        expires: opt_int(c.expires),
        httponly: c.httponly,
        secure: c.secure,
    }
}

/// Whether `c` is a word character.
fn is_word_exec(c: char) -> (r: bool)
    ensures
        r == is_word(c),
{
    let u = c as u32;
    (97 <= u && u <= 122) || (65 <= u && u <= 90) || (48 <= u && u <= 57) || u == 95
}

/// Case-insensitive comparison of `s[i]` against a lowercase letter.
fn char_ci(s: &str, n: usize, i: usize, t: char) -> (r: bool)
    requires
        n == s@.len(),
        i < n,
    ensures
        r == matches_ci(s@[i as int], t),
{
    let c = s.get_char(i);
    c == t || (c as u32) + 32 == (t as u32)
}

/// The characters of a token, for scanning.
fn tok_chars(k: AttrKind) -> (r: Vec<char>)
    ensures
        r@ == tok_seq(k),
{
    let out: Vec<char> = match k {
        AttrKind::Path => vec!['p', 'a', 't', 'h'],
        AttrKind::Domain => vec!['d', 'o', 'm', 'a', 'i', 'n'],
        AttrKind::Expires => vec!['e', 'x', 'p', 'i', 'r', 'e', 's'],
        AttrKind::Httponly => vec!['h', 't', 't', 'p', 'o', 'n', 'l', 'y'],
        AttrKind::Secure => vec!['s', 'e', 'c', 'u', 'r', 'e'],
    };
    proof {
        assert(out@ =~= tok_seq(k));
    }
    out
}

/// Whether token `k` stands at position `p`.
fn token_match(s: &str, n: usize, p: usize, k: AttrKind) -> (r: bool)
    requires
        n == s@.len(),
        p < n,
    ensures
        r == token_at(s@, p as int, k),
{
    let tok = tok_chars(k);
    let tl = tok.len();
    if n - p < tl {
        return false;
    }
    if p > 0 && is_word_exec(s.get_char(p - 1)) {
        return false;
    }
    if p + tl < n && is_word_exec(s.get_char(p + tl)) {
        return false;
    }
    let mut j: usize = 0;
    while j < tl
        invariant
            n == s@.len(),
            p < n,
            tl == tok_seq(k).len(),
            tok@ == tok_seq(k),
            p + tl <= n,
            j <= tl,
            forall|m: int| 0 <= m < j ==> matches_ci(s@[p + m], tok_seq(k)[m]),
        decreases tl - j,
    {
        if !char_ci(s, n, p + j, tok[j]) {
            return false;
        }
        j += 1;
    }
    true
}

/// The token standing at position `p`, if any.
fn token_kind(s: &str, n: usize, p: usize) -> (r: Option<AttrKind>)
    requires
        n == s@.len(),
        p < n,
    ensures
        r == token_kind_at(s@, p as int),
{
    if token_match(s, n, p, AttrKind::Path) {
        Some(AttrKind::Path)
    } else if token_match(s, n, p, AttrKind::Domain) {
        Some(AttrKind::Domain)
    } else if token_match(s, n, p, AttrKind::Expires) {
        Some(AttrKind::Expires)
    } else if token_match(s, n, p, AttrKind::Httponly) {
        Some(AttrKind::Httponly)
    } else if token_match(s, n, p, AttrKind::Secure) {
        Some(AttrKind::Secure)
    } else {
        None
    }
}

/// Parse one raw cookie header line.
///
/// `name=value` is taken from the leading segment, before the first `;`;
/// when that segment has no such shape the line is rejected with
/// `InvalidCookie`. The whole line is then scanned for attribute tokens; an
/// `expires` value in an unrecognised format rejects the line with
/// `MalformedExpiry`.
#[verifier::rlimit(100)]
pub fn parse_cookie(raw: &str) -> (r: Result<CookieRow, StoreError>)
    ensures
        match r {
            Ok(c) => {
                &&& leading_valid(raw@)
                &&& c.name@ == cookie_name_spec(raw@)
                &&& c.value@ == cookie_value_spec(raw@)
                &&& scan_attrs(raw@, 0, no_attrs()) == Some(cookie_attrs(c))
            },
            Err(e) => {
                ||| (e == StoreError::InvalidCookie && !leading_valid(raw@))
                ||| (e == StoreError::MalformedExpiry && leading_valid(raw@) && scan_attrs(
                    raw@,
                    0,
                    no_attrs(),
                ) is None)
            },
        },
{
    let n = raw.unicode_len();
    let semi = find_char(raw, n, 0, ';');
    let eq = find_char(raw, n, 0, '=');
    proof {
        lemma_find_from(raw@, 0, ';');
        lemma_find_from(raw@, 0, '=');
        let seg = lead_seg(raw@);
        lemma_find_from(seg, 0, '=');
        assert(seg.len() == semi as int);
        assert(forall|j: int| 0 <= j < semi ==> seg[j] == raw@[j]);
        let fs = find_from(seg, 0, '=');
        if eq < semi {
            assert(seg[eq as int] == '=');
            if fs < eq as int {
                assert(seg[fs] == '=');
                assert(raw@[fs] == '=');
                assert(false);
            }
            assert(fs == eq as int);
        } else {
            assert forall|j: int| 0 <= j < seg.len() implies seg[j] != '=' by {
                assert(raw@[j] != '=');
            }
            if fs < seg.len() {
                assert(false);
            }
            assert(fs == seg.len());
        }
    }
    if !(eq > 0 && eq < semi && eq + 1 < semi) {
        return Err(StoreError::InvalidCookie);
    }
    let name = trim_str(raw.substring_char(0, eq));
    let value = trim_str(raw.substring_char(eq + 1, semi));
    proof {
        let seg = lead_seg(raw@);
        assert(raw@.subrange(0, eq as int) =~= seg.subrange(0, eq as int));
        assert(raw@.subrange(eq as int + 1, semi as int) =~= seg.subrange(
            eq as int + 1,
            seg.len() as int,
        ));
    }
    let mut path_v: Option<String> = None;
    let mut domain_v: Option<String> = None;
    let mut expires_v: Option<i64> = None;
    let mut httponly_v: bool = false;
    let mut secure_v: bool = false;
    let mut p: usize = 0;
    while p < n
        invariant
            n == raw@.len(),
            p <= n,
            leading_valid(raw@),
            name@ == cookie_name_spec(raw@),
            value@ == cookie_value_spec(raw@),
            scan_attrs(raw@, 0, no_attrs()) == scan_attrs(
                raw@,
                p as int,
                (Attrs {
                    path: opt_view(path_v),
                    domain: opt_view(domain_v),
                    expires: opt_int(expires_v),
                    httponly: httponly_v,
                    secure: secure_v,
                }),
            ),
        decreases n - p,
    {
        let ghost a_before = Attrs {
            path: opt_view(path_v),
            domain: opt_view(domain_v),
            expires: opt_int(expires_v),
            httponly: httponly_v,
            secure: secure_v,
        };
        match token_kind(raw, n, p) {
            Some(k) => {
                let tok = tok_chars(k);
                let tl = tok.len();
                proof {
                    assert(token_at(raw@, p as int, k));
                }
                let e = p + tl;
                let has_val = e < n && raw.get_char(e) == '=';
                let end: usize = if has_val {
                    find_char(raw, n, e + 1, ';')
                } else {
                    e
                };
                let val: String = if has_val {
                    proof {
                        lemma_find_from(raw@, e as int + 1, ';');
                    }
                    trim_str(raw.substring_char(e + 1, end))
                } else {
                    String::new()
                };
                proof {
                    if has_val {
                        assert(raw@.subrange(e as int + 1, end as int) == attr_raw_value(
                            raw@,
                            p as int,
                            k,
                        ));
                    } else {
                        assert(attr_raw_value(raw@, p as int, k) =~= Seq::<char>::empty());
                        assert(val@ == trim_spec(attr_raw_value(raw@, p as int, k)));
                    }
                    assert(attr_end(raw@, p as int, k) == end as int);
                    assert(p < end && end <= n) by {
                        if has_val {
                            lemma_find_from(raw@, e as int + 1, ';');
                        }
                    }
                }
                let ghost vv = trim_spec(attr_raw_value(raw@, p as int, k));
                match k {
                    AttrKind::Path => {
                        path_v = Some(val);
                        proof {
                            assert(scan_attrs(raw@, p as int, a_before) == scan_attrs(
                                raw@,
                                end as int,
                                (Attrs { path: Some(vv), ..a_before }),
                            ));
                        }
                    },
                    AttrKind::Domain => {
                        domain_v = Some(val);
                        proof {
                            assert(scan_attrs(raw@, p as int, a_before) == scan_attrs(
                                raw@,
                                end as int,
                                (Attrs { domain: Some(vv), ..a_before }),
                            ));
                        }
                    },
                    AttrKind::Expires => {
                        match parse_expires(val.as_str()) {
                            Ok(t) => {
                                expires_v = Some(t);
                                proof {
                                    assert(scan_attrs(raw@, p as int, a_before) == scan_attrs(
                                        raw@,
                                        end as int,
                                        (Attrs { expires: Some(t as int), ..a_before }),
                                    ));
                                }
                            },
                            Err(_) => {
                                proof {
                                    assert(scan_attrs(raw@, p as int, a_before) is None);
                                }
                                return Err(StoreError::MalformedExpiry);
                            },
                        }
                    },
                    AttrKind::Httponly => {
                        httponly_v = true;
                        proof {
                            assert(scan_attrs(raw@, p as int, a_before) == scan_attrs(
                                raw@,
                                end as int,
                                (Attrs { httponly: true, ..a_before }),
                            ));
                        }
                    },
                    AttrKind::Secure => {
                        secure_v = true;
                        proof {
                            assert(scan_attrs(raw@, p as int, a_before) == scan_attrs(
                                raw@,
                                end as int,
                                (Attrs { secure: true, ..a_before }),
                            ));
                        }
                    },
                }
                p = end;
            },
            None => {
                proof {
                    assert(scan_attrs(raw@, p as int, a_before) == scan_attrs(
                        raw@,
                        p as int + 1,
                        a_before,
                    ));
                }
                p += 1;
            },
        }
    }
    let row = CookieRow {
        name,
        value,
        path: path_v,
        domain: domain_v,
        expires: expires_v,
        httponly: httponly_v,
        secure: secure_v,
    };
    proof {
        assert(scan_attrs(raw@, p as int, cookie_attrs(row)) == Some(cookie_attrs(row)));
    }
    Ok(row)
}


// ---------------------------------------------------------------------------
// Lexicographic order on names
// ---------------------------------------------------------------------------
/// Lexicographic order on character sequences, by code point.
pub open spec fn lex_leq(a: Seq<char>, b: Seq<char>) -> bool
    decreases a.len(),
{
    if a.len() == 0 {
        true
    } else if b.len() == 0 {
        false
    } else if (a[0] as u32) < (b[0] as u32) {
        true
    } else if (a[0] as u32) > (b[0] as u32) {
        false
    } else {
        lex_leq(a.drop_first(), b.drop_first())
    }
}

/// `lex_leq` is total.
pub proof fn lemma_lex_total(a: Seq<char>, b: Seq<char>)
    ensures
        lex_leq(a, b) || lex_leq(b, a),
    decreases a.len(),
{
    if a.len() > 0 && b.len() > 0 && (a[0] as u32) == (b[0] as u32) {
        lemma_lex_total(a.drop_first(), b.drop_first());
    }
}

/// `lex_leq` is transitive.
pub proof fn lemma_lex_trans(a: Seq<char>, b: Seq<char>, c: Seq<char>)
    requires
        lex_leq(a, b),
        lex_leq(b, c),
    ensures
        lex_leq(a, c),
    decreases a.len(),
{
    if a.len() > 0 && b.len() > 0 && c.len() > 0 && (a[0] as u32) == (b[0] as u32) && (
    b[0] as u32) == (c[0] as u32) {
        lemma_lex_trans(a.drop_first(), b.drop_first(), c.drop_first());
    }
}

/// Whether `a` comes at or before `b` in name order.
pub fn str_le(a: &str, b: &str) -> (r: bool)
    ensures
        r == lex_leq(a@, b@),
{
    let na = a.unicode_len();
    let nb = b.unicode_len();
    proof {
        assert(a@.skip(0) =~= a@);
        assert(b@.skip(0) =~= b@);
    }
    let mut i: usize = 0;
    while i < na && i < nb
        invariant
            na == a@.len(),
            nb == b@.len(),
            i <= na,
            i <= nb,
            lex_leq(a@, b@) == lex_leq(a@.skip(i as int), b@.skip(i as int)),
        decreases na - i,
    {
        let ca = a.get_char(i);
        let cb = b.get_char(i);
        proof {
            assert(a@.skip(i as int)[0] == a@[i as int]);
            assert(b@.skip(i as int)[0] == b@[i as int]);
            assert(a@.skip(i as int).drop_first() =~= a@.skip(i as int + 1));
            assert(b@.skip(i as int).drop_first() =~= b@.skip(i as int + 1));
        }
        if (ca as u32) < (cb as u32) {
            return true;
        }
        if (ca as u32) > (cb as u32) {
            return false;
        }
        i += 1;
    }
    proof {
        if i >= na {
            assert(a@.skip(i as int).len() == 0);
        } else {
            assert(b@.skip(i as int).len() == 0);
            assert(a@.skip(i as int).len() > 0);
        }
    }
    i >= na
}

// ---------------------------------------------------------------------------
// The cookies table
// ---------------------------------------------------------------------------
impl Keyed for (String, String) {
    open spec fn key_view(&self) -> Seq<char> {
        self.0@
    }

    fn key_ref(&self) -> (r: &str) {
        self.0.as_str()
    }
}

/// The rows of the cookies table, or none when it has not been created.
pub open spec fn jar_rows(db: Database) -> Seq<Row> {
    crate::db::prior_rows(db, "cookies"@)
}

/// Unique cookie names in the jar.
pub open spec fn jar_wf(db: Database) -> bool {
    kwf(jar_rows(db))
}

/// Whether a stored row can be read back as a name/value pair.
pub open spec fn jar_row_ok(r: Row) -> bool {
    r.fields@.len() >= 1 && r.fields@[0] is Str
}

/// The value stored under cookie name `k`, if any.
pub open spec fn jar_value(rows: Seq<Row>, k: Seq<char>) -> Option<Seq<char>> {
    match kget(rows, k) {
        Some(r) => match r.fields@[0] {
            JsonValue::Str(s) => Some(s@),
            _ => None,
        },
        None => None,
    }
}

/// The value under name `k` in a loaded name/value list.
pub open spec fn list_value(l: Seq<(String, String)>, k: Seq<char>) -> Option<Seq<char>> {
    match kget(l, k) {
        Some(p) => Some(p.1@),
        None => None,
    }
}

/// Name-sorted.
pub open spec fn sorted_by_name(l: Seq<(String, String)>) -> bool {
    forall|i: int, j: int| 0 <= i < j < l.len() ==> lex_leq(l[i].0@, l[j].0@)
}

/// Whether a stored row carries this name, value and attributes.
pub open spec fn row_matches_cookie(r: Row, name: Seq<char>, value: Seq<char>, a: Attrs) -> bool {
    &&& r.key@ == name
    &&& r.fields@.len() == 6
    &&& (match r.fields@[0] {
        JsonValue::Str(s) => s@ == value,
        _ => false,
    })
    &&& (match a.path {
        Some(p) => (match r.fields@[1] {
            JsonValue::Str(s) => s@ == p,
            _ => false,
        }),
        None => r.fields@[1] is Null,
    })
    &&& (match a.domain {
        Some(d) => (match r.fields@[2] {
            JsonValue::Str(s) => s@ == d,
            _ => false,
        }),
        None => r.fields@[2] is Null,
    })
    &&& (match a.expires {
        Some(t) => (match r.fields@[3] {
            JsonValue::Int(x) => x as int == t,
            _ => false,
        }),
        None => r.fields@[3] is Null,
    })
    &&& (match r.fields@[4] {
        JsonValue::Bool(b) => b == a.httponly,
        _ => false,
    })
    &&& (match r.fields@[5] {
        JsonValue::Bool(b) => b == a.secure,
        _ => false,
    })
}

/// The cookies table: one row per cookie name.
pub struct CookiesTable;

impl TableSpec for CookiesTable {
    open spec fn name_spec(&self) -> Seq<char> {
        "cookies"@
    }

    open spec fn latest_spec(&self) -> i64 {
        1
    }

    open spec fn migrate_ok(&self, old_rows: Seq<Row>) -> bool {
        true
    }

    open spec fn migrate_model(&self, old_rows: Seq<Row>) -> Seq<Row> {
        Seq::empty()
    }

    fn name(&self) -> (r: String) {
        "cookies".to_owned()
    }

    fn latest(&self) -> (r: i64) {
        1
    }

    open spec fn create_stmt_spec(&self) -> Seq<char> {
        "CREATE TABLE IF NOT EXISTS \"cookies\" ( \"name\" text NOT NULL PRIMARY KEY, \"value\" text NOT NULL, \"path\" text NULL, \"domain\" text NULL, \"expires\" integer NULL, \"httponly\" boolean NOT NULL, \"secure\" boolean NOT NULL )"@
    }

    fn create_stmt(&self) -> (r: String) {
        "CREATE TABLE IF NOT EXISTS \"cookies\" ( \"name\" text NOT NULL PRIMARY KEY, \"value\" text NOT NULL, \"path\" text NULL, \"domain\" text NULL, \"expires\" integer NULL, \"httponly\" boolean NOT NULL, \"secure\" boolean NOT NULL )".to_owned()
    }

    fn migrate_data(&self, old_rows: &TableData, fresh: &mut TableData) -> (r: Result<
        (),
        StoreError,
    >) {
        proof {
            assert(fresh.rows@ =~= Seq::<Row>::empty());
        }
        Ok(())
    }
}

/// Parse one raw cookie header line and upsert the record keyed by its name,
/// overwriting all attribute columns on conflict.
pub fn insert(db: &mut Database, cookie: String) -> (r: Result<(), StoreError>)
    requires
        db_wf(*old(db)),
        jar_wf(*old(db)),
    ensures
        db_wf(*final(db)),
        jar_wf(*final(db)),
        final(db).meta == old(db).meta,
        forall|n: Seq<char>|
            n != "cookies"@ ==> kget(final(db).tables@, n) == kget(old(db).tables@, n),
        match r {
            Ok(()) => {
                &&& leading_valid(cookie@)
                &&& khas(old(db).tables@, "cookies"@)
                &&& khas(final(db).tables@, "cookies"@)
                &&& (match scan_attrs(cookie@, 0, no_attrs()) {
                    Some(a) => (match kget(jar_rows(*final(db)), cookie_name_spec(cookie@)) {
                        Some(row) => row_matches_cookie(
                            row,
                            cookie_name_spec(cookie@),
                            cookie_value_spec(cookie@),
                            a,
                        ),
                        None => false,
                    }),
                    None => false,
                })
                &&& forall|k: Seq<char>|
                    k != cookie_name_spec(cookie@) ==> kget(jar_rows(*final(db)), k) == kget(
                        jar_rows(*old(db)),
                        k,
                    )
            },
            Err(e) => {
                &&& final(db).tables@ == old(db).tables@
                &&& (e == StoreError::InvalidCookie ==> !leading_valid(cookie@))
                &&& (e == StoreError::MalformedExpiry ==> leading_valid(cookie@) && scan_attrs(
                    cookie@,
                    0,
                    no_attrs(),
                ) is None)
                &&& (e == StoreError::QueryFailure ==> leading_valid(cookie@) && !khas(
                    old(db).tables@,
                    "cookies"@,
                ))
                &&& (e == StoreError::InvalidCookie || e == StoreError::MalformedExpiry || e
                    == StoreError::QueryFailure)
            },
        },
{
    let parsed = match parse_cookie(cookie.as_str()) {
        Ok(c) => c,
        Err(e) => {
            return Err(e);
        },
    };
    let ghost pview = cookie_attrs(parsed);
    let mut fields: Vec<JsonValue> = Vec::new();
    fields.push(JsonValue::Str(parsed.value));
    match parsed.path {
        Some(p) => fields.push(JsonValue::Str(p)),
        None => fields.push(JsonValue::Null),
    }
    match parsed.domain {
        Some(d) => fields.push(JsonValue::Str(d)),
        None => fields.push(JsonValue::Null),
    }
    match parsed.expires {
        Some(t) => fields.push(JsonValue::Int(t)),
        None => fields.push(JsonValue::Null),
    }
    fields.push(JsonValue::Bool(parsed.httponly));
    fields.push(JsonValue::Bool(parsed.secure));
    let row = Row { key: parsed.name, fields };
    proof {
        assert(row_matches_cookie(row, cookie_name_spec(cookie@), cookie_value_spec(cookie@), pview));
    }
    let ti = match kfind(&db.tables, "cookies") {
        Some(i) => i,
        None => {
            return Err(StoreError::QueryFailure);
        },
    };
    let ghost orig_tables = db.tables@;
    let mut pair = db.tables.remove(ti);
    kupsert(&mut pair.1.rows, row);
    db.tables.insert(ti, pair);
    proof {
        assert(db.tables@ =~= orig_tables.update(ti as int, db.tables@[ti as int]));
        crate::kv::lemma_kidx(orig_tables, "cookies"@);
        crate::db::lemma_tables_replace(orig_tables, db.tables@, ti as int);
    }
    Ok(())
}

/// Every stored cookie's name mapped to its value only, ordered by name, for
/// assembling a request header deterministically.
pub fn load(db: &Database) -> (r: Result<Vec<(String, String)>, StoreError>)
    requires
        jar_wf(*db),
    ensures
        match r {
            Ok(list) => {
                &&& khas(db.tables@, "cookies"@)
                &&& sorted_by_name(list@)
                &&& kwf(list@)
                &&& forall|k: Seq<char>| list_value(list@, k) == jar_value(jar_rows(*db), k)
                &&& forall|i: int| 0 <= i < jar_rows(*db).len() ==> jar_row_ok(jar_rows(*db)[i])
            },
            Err(e) => {
                &&& e == StoreError::QueryFailure
                &&& (!khas(db.tables@, "cookies"@) || exists|i: int|
                    0 <= i < jar_rows(*db).len() && !jar_row_ok(jar_rows(*db)[i]))
            },
        },
{
    let ti = match kfind(&db.tables, "cookies") {
        Some(i) => i,
        None => {
            return Err(StoreError::QueryFailure);
        },
    };
    let rows = &db.tables[ti].1.rows;
    proof {
        crate::kv::lemma_kidx(db.tables@, "cookies"@);
        assert(jar_rows(*db) == rows@);
    }
    let mut out: Vec<(String, String)> = Vec::new();
    let mut i: usize = 0;
    while i < rows.len()
        invariant
            rows@ == jar_rows(*db),
            kwf(rows@),
            i <= rows@.len(),
            sorted_by_name(out@),
            kwf(out@),
            forall|j: int| 0 <= j < i ==> jar_row_ok(rows@[j]),
            forall|k: Seq<char>|
                list_value(out@, k) == jar_value(rows@.take(i as int), k),
        decreases rows@.len() - i,
    {
        let ghost prefix = rows@.take(i as int);
        let row = &rows[i];
        if row.fields.len() < 1 {
            return Err(StoreError::QueryFailure);
        }
        let value: String = match &row.fields[0] {
            JsonValue::Str(s) => s.clone(),
            _ => {
                return Err(StoreError::QueryFailure);
            },
        };
        let name: String = row.key.clone();
        proof {
            crate::kv::lemma_kidx(prefix, name@);
            if kidx(prefix, name@) >= 0 {
                let m = kidx(prefix, name@);
                assert(prefix[m] == rows@[m]);
                assert(false);
            }
            assert(!khas(prefix, name@));
            assert(list_value(out@, name@) == jar_value(prefix, name@));
            assert(!khas(out@, name@)) by {
                crate::kv::lemma_kidx(out@, name@);
            }
        }
        insert_sorted(&mut out, name, value);
        proof {
            assert(rows@.take(i as int + 1) =~= prefix.push(rows@[i as int]));
            assert forall|k: Seq<char>| true implies list_value(out@, k) == jar_value(
                rows@.take(i as int + 1),
                k,
            ) by {
                crate::kv::lemma_kidx_push(prefix, rows@[i as int], k);
                crate::kv::lemma_kidx(prefix, k);
                if k != rows@[i as int].key_view() {
                    if kidx(prefix, k) >= 0 {
                        assert(prefix.push(rows@[i as int])[kidx(prefix, k)] == prefix[kidx(
                            prefix,
                            k,
                        )]);
                    }
                } else {
                    assert(prefix.push(rows@[i as int])[prefix.len() as int] == rows@[i as int]);
                }
            }
        }
        i += 1;
    }
    proof {
        assert(rows@.take(rows@.len() as int) =~= rows@);
    }
    Ok(out)
}

/// Insert a fresh name into a name-sorted list, keeping it sorted; every
/// other name keeps its value.
fn insert_sorted(list: &mut Vec<(String, String)>, name: String, value: String)
    requires
        sorted_by_name(old(list)@),
        kwf(old(list)@),
        !khas(old(list)@, name@),
    ensures
        sorted_by_name(final(list)@),
        kwf(final(list)@),
        list_value(final(list)@, name@) == Some(value@),
        forall|k: Seq<char>|
            k != name@ ==> list_value(final(list)@, k) == list_value(old(list)@, k),
{
    let ghost orig = list@;
    let n = list.len();
    let mut pos: usize = 0;
    while pos < n && !str_le(name.as_str(), list[pos].0.as_str())
        invariant
            n == list@.len(),
            list@ == orig,
            pos <= n,
            forall|j: int| 0 <= j < pos ==> !lex_leq(name@, orig[j].0@),
        decreases n - pos,
    {
        pos += 1;
    }
    let ghost nm = name@;
    let entry = (name, value);
    list.insert(pos, entry);
    proof {
        assert(list@ =~= orig.insert(pos as int, list@[pos as int]));
        let e = list@[pos as int];
        assert(e.key_view() == nm);
        assert forall|i: int, j: int| 0 <= i < j < list@.len() implies lex_leq(
            list@[i].0@,
            list@[j].0@,
        ) by {
            if i == pos as int {
                assert(list@[j] == orig[j - 1]);
                assert(j - 1 >= pos);
                assert(pos < orig.len());
                assert(lex_leq(nm, orig[pos as int].0@));
                if j - 1 > pos {
                    assert(lex_leq(orig[pos as int].0@, orig[j - 1].0@));
                    lemma_lex_trans(nm, orig[pos as int].0@, orig[j - 1].0@);
                }
            } else if j == pos as int {
                assert(list@[i] == orig[i]);
                assert(i < pos);
                lemma_lex_total(nm, orig[i].0@);
            } else {
                let io = if i < pos as int {
                    i
                } else {
                    i - 1
                };
                let jo = if j < pos as int {
                    j
                } else {
                    j - 1
                };
                assert(list@[i] == orig[io]);
                assert(list@[j] == orig[jo]);
                assert(io < jo);
            }
        }
        crate::kv::lemma_kidx(orig, nm);
        assert forall|m: int, n2: int| 0 <= m < n2 < list@.len() implies list@[m].key_view()
            != list@[n2].key_view() by {
            let mo = if m < pos as int {
                m
            } else {
                m - 1
            };
            let no = if n2 < pos as int {
                n2
            } else {
                n2 - 1
            };
            if m != pos as int && n2 != pos as int {
                assert(list@[m] == orig[mo]);
                assert(list@[n2] == orig[no]);
            } else if m == pos as int {
                assert(list@[n2] == orig[no]);
            } else {
                assert(list@[m] == orig[mo]);
            }
        }
        assert forall|k: Seq<char>| k != nm implies list_value(list@, k) == list_value(
            orig,
            k,
        ) by {
            crate::kv::lemma_kidx_insert(orig, pos as int, e, k);
        }
        assert(khas(list@, nm)) by {
            crate::kv::lemma_kidx(list@, nm);
            assert(list@[pos as int].key_view() == nm);
        }
        assert(kget(list@, nm) == Some(e)) by {
            crate::kv::lemma_kidx(list@, nm);
            let w = kidx(list@, nm);
            if w != pos as int {
                let wo = if w < pos as int {
                    w
                } else {
                    w - 1
                };
                assert(list@[w] == orig[wo]);
                crate::kv::lemma_kidx(orig, nm);
                assert(false);
            }
        }
    }
}

/// Remove the row with that name; deleting a non-existent name succeeds.
pub fn delete(db: &mut Database, name: String) -> (r: Result<(), StoreError>)
    requires
        db_wf(*old(db)),
        jar_wf(*old(db)),
    ensures
        db_wf(*final(db)),
        jar_wf(*final(db)),
        final(db).meta == old(db).meta,
        forall|n: Seq<char>|
            n != "cookies"@ ==> kget(final(db).tables@, n) == kget(old(db).tables@, n),
        match r {
            Ok(()) => {
                &&& khas(old(db).tables@, "cookies"@)
                &&& khas(final(db).tables@, "cookies"@)
                &&& kget(jar_rows(*final(db)), name@) is None
                &&& forall|k: Seq<char>|
                    k != name@ ==> kget(jar_rows(*final(db)), k) == kget(jar_rows(*old(db)), k)
            },
            Err(e) => {
                &&& e == StoreError::QueryFailure
                &&& !khas(old(db).tables@, "cookies"@)
                &&& final(db).tables@ == old(db).tables@
            },
        },
{
    let ti = match kfind(&db.tables, "cookies") {
        Some(i) => i,
        None => {
            return Err(StoreError::QueryFailure);
        },
    };
    let ghost orig_tables = db.tables@;
    let mut pair = db.tables.remove(ti);
    crate::kv::kremove(&mut pair.1.rows, name.as_str());
    db.tables.insert(ti, pair);
    proof {
        assert(db.tables@ =~= orig_tables.update(ti as int, db.tables@[ti as int]));
        crate::kv::lemma_kidx(orig_tables, "cookies"@);
        crate::db::lemma_tables_replace(orig_tables, db.tables@, ti as int);
    }
    Ok(())
}

} // verus!
