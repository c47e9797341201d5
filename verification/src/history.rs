//! Scan history and configuration bookkeeping: where the files live, record
//! identifiers, UTC timestamps, and removing the records of one dataset.
use vstd::prelude::*;
use crate::discovery::{contains_text, text_contains};
use vstd::utf8::{decode_utf8, is_char_boundary};
use vstd::string::StringSliceAdditionalSpecFns;
use crate::text::{chars_of, string_from_chars, unicode_alphabetic, strings_view, text_lt, chars_lt, chars_eq,
    lemma_text_lt_total, lemma_text_lt_transitive};

verus! {

// ---------------------------------------------------------------- calendar

pub open spec fn spec_is_leap(y: int) -> bool {
    (y % 4 == 0 && y % 100 != 0) || y % 400 == 0
}

pub open spec fn year_len(y: int) -> int {
    if spec_is_leap(y) {
        366
    } else {
        365
    }
}

/// Days from 1970-01-01 to the first day of year `y`.
pub open spec fn days_before_year(y: int) -> int
    decreases y - 1970,
{
    if y <= 1970 {
        0
    } else {
        days_before_year(y - 1) + year_len(y - 1)
    }
}

/// Length of month `m` (1..12) of year `y`.
pub open spec fn month_len(y: int, m: int) -> int {
    if m == 2 {
        if spec_is_leap(y) {
            29
        } else {
            28
        }
    } else if m == 4 || m == 6 || m == 9 || m == 11 {
        30
    } else {
        31
    }
}

/// Days from the first of January of year `y` to the first day of month `m`.
pub open spec fn days_before_month(y: int, m: int) -> int
    decreases m,
{
    if m <= 1 {
        0
    } else {
        days_before_month(y, m - 1) + month_len(y, m - 1)
    }
}

/// Gregorian leap year.
pub fn is_leap(y: u64) -> (r: bool)
    ensures
        r == spec_is_leap(y as int),
{
    (y % 4 == 0 && y % 100 != 0) || y % 400 == 0
}

/// The calendar date (year, month, day) that lies `days` days after 1970-01-01.
pub fn days_to_ymd(days: u64) -> (r: (u64, u64, u64))
    ensures
        r.0 >= 1970,
        1 <= r.1 <= 12,
        1 <= r.2 <= month_len(r.0 as int, r.1 as int),
        days_before_year(r.0 as int) + days_before_month(r.0 as int, r.1 as int) + r.2 - 1 == days,
        (r.0 as nat, r.1 as nat, r.2 as nat) == spec_days_to_ymd(days),
{
    let mut rem = days;
    let mut year: u64 = 1970;
    loop
        invariant
            year >= 1970,
            days_before_year(year as int) + rem == days,
            365 * (year - 1970) <= days - rem,
            ymd_from(year as int, rem as int) == ymd_from(1970, days as int),
        ensures
            ymd_from(year as int, rem as int) == ymd_from(1970, days as int),
            year >= 1970,
            days_before_year(year as int) + rem == days,
            rem < year_len(year as int),
        decreases rem,
    {
        let dy: u64 = if is_leap(year) {
            366
        } else {
            365
        };
        if rem < dy {
            break;
        }
        rem = rem - dy;
        year = year + 1;
    }
    let leap = is_leap(year);
    let y_rem = rem;
    let mut month: u64 = 1;
    loop
        invariant
            1 <= month <= 12,
            leap == spec_is_leap(year as int),
            days_before_month(year as int, month as int) + rem < year_len(year as int),
            days_before_month(year as int, month as int) + rem == days - days_before_year(
                year as int,
            ),
            md_from(year as int, month as int, rem as int) == md_from(year as int, 1, y_rem as int),
        ensures
            md_from(year as int, month as int, rem as int) == md_from(year as int, 1, y_rem as int),
            1 <= month <= 12,
            rem < month_len(year as int, month as int),
            days_before_month(year as int, month as int) + rem == days - days_before_year(
                year as int,
            ),
        decreases 12 - month,
    {
        let dm: u64 = if month == 2 {
            if leap {
                29
            } else {
                28
            }
        } else if month == 4 || month == 6 || month == 9 || month == 11 {
            30
        } else {
            31
        };
        if rem < dm {
            break;
        }
        proof {
            if month == 12 {
                assert(days_before_month(year as int, 12) + 31 == year_len(year as int)) by {
                    reveal_with_fuel(days_before_month, 13);
                }
            }
        }
        rem = rem - dm;
        month = month + 1;
    }
    (year, month, rem + 1)
}


// ---------------------------------------------------------------- timestamps

pub open spec fn digit_char(d: int) -> char {
    (0x30 + d) as char
}

/// Decimal digits of `n`, without leading zeros ("0" for zero).
pub open spec fn dec_digits(n: nat) -> Seq<char>
    decreases n,
{
    if n < 10 {
        seq![digit_char(n as int)]
    } else {
        dec_digits(n / 10).push(digit_char((n % 10) as int))
    }
}

/// Decimal digits of `n`, left-padded with zeros to `w` characters.
pub open spec fn dec_padded(n: nat, w: nat) -> Seq<char> {
    let d = dec_digits(n);
    if d.len() >= w {
        d
    } else {
        Seq::new((w - d.len()) as nat, |i: int| '0') + d
    }
}

/// `YYYY-MM-DDTHH:MM:SSZ` for `secs` seconds after the Unix epoch (UTC).
pub open spec fn spec_timestamp(secs: u64) -> Seq<char> {
    let days = secs / 86400;
    let ymd = spec_days_to_ymd(days);
    dec_padded(ymd.0, 4) + seq!['-'] + dec_padded(ymd.1, 2) + seq!['-'] + dec_padded(ymd.2, 2)
        + seq!['T'] + dec_padded(((secs / 3600) % 24) as nat, 2) + seq![':'] + dec_padded(
        ((secs / 60) % 60) as nat,
        2,
    ) + seq![':'] + dec_padded((secs % 60) as nat, 2) + seq!['Z']
}

/// Month and day for `rem` days into year `y`, counting months from `m`.
pub open spec fn md_from(y: int, m: int, rem: int) -> (nat, nat)
    decreases 12 - m,
{
    if m >= 12 || rem < month_len(y, m) {
        (m as nat, (rem + 1) as nat)
    } else {
        md_from(y, m + 1, rem - month_len(y, m))
    }
}

/// Date for `rem` days after the first of January of year `y`.
pub open spec fn ymd_from(y: int, rem: int) -> (nat, nat, nat)
    decreases rem,
{
    if rem < year_len(y) {
        let md = md_from(y, 1, rem);
        (y as nat, md.0, md.1)
    } else {
        ymd_from(y + 1, rem - year_len(y))
    }
}

/// The calendar date `days` days after 1970-01-01.
pub open spec fn spec_days_to_ymd(days: u64) -> (nat, nat, nat) {
    ymd_from(1970, days as int)
}

proof fn lemma_days_before_year_mono(a: int, b: int)
    requires
        1970 <= a <= b,
    ensures
        days_before_year(a) + 365 * (b - a) <= days_before_year(b),
    decreases b - a,
{
    if a < b {
        lemma_days_before_year_mono(a, b - 1);
    }
}

proof fn lemma_days_before_month_mono(y: int, a: int, b: int)
    requires
        1 <= a <= b,
    ensures
        days_before_month(y, a) + 28 * (b - a) <= days_before_month(y, b),
    decreases b - a,
{
    if a < b {
        lemma_days_before_month_mono(y, a, b - 1);
    }
}

/// Law: a day count has exactly one calendar date.
#[verifier::rlimit(40)]
pub proof fn lemma_ymd_unique(y1: int, m1: int, d1: int, y2: int, m2: int, d2: int)
    requires
        y1 >= 1970,
        y2 >= 1970,
        1 <= m1 <= 12,
        1 <= m2 <= 12,
        1 <= d1 <= month_len(y1, m1),
        1 <= d2 <= month_len(y2, m2),
        days_before_year(y1) + days_before_month(y1, m1) + d1 == days_before_year(y2)
            + days_before_month(y2, m2) + d2,
    ensures
        y1 == y2 && m1 == m2 && d1 == d2,
{
    assert(days_before_month(y1, 12) + 31 == year_len(y1)) by {
        reveal_with_fuel(days_before_month, 13);
    }
    assert(days_before_month(y2, 12) + 31 == year_len(y2)) by {
        reveal_with_fuel(days_before_month, 13);
    }
    lemma_days_before_month_mono(y1, 1, m1);
    lemma_days_before_month_mono(y2, 1, m2);
    assert(days_before_month(y1, m1) + d1 <= year_len(y1)) by {
        if m1 < 12 {
            lemma_days_before_month_mono(y1, m1 + 1, 12);
            assert(days_before_month(y1, m1 + 1) == days_before_month(y1, m1) + month_len(y1, m1));
        }
    }
    assert(days_before_month(y2, m2) + d2 <= year_len(y2)) by {
        if m2 < 12 {
            lemma_days_before_month_mono(y2, m2 + 1, 12);
            assert(days_before_month(y2, m2 + 1) == days_before_month(y2, m2) + month_len(y2, m2));
        }
    }
    if y1 < y2 {
        lemma_days_before_year_mono(y1 + 1, y2);
        assert(days_before_year(y1 + 1) == days_before_year(y1) + year_len(y1));
    } else if y2 < y1 {
        lemma_days_before_year_mono(y2 + 1, y1);
        assert(days_before_year(y2 + 1) == days_before_year(y2) + year_len(y2));
    } else {
        if m1 < m2 {
            lemma_days_before_month_mono(y1, m1 + 1, m2);
            assert(days_before_month(y1, m1 + 1) == days_before_month(y1, m1) + month_len(y1, m1));
        } else if m2 < m1 {
            lemma_days_before_month_mono(y1, m2 + 1, m1);
            assert(days_before_month(y1, m2 + 1) == days_before_month(y1, m2) + month_len(y1, m2));
        }
    }
}

/// Appends the decimal digits of `n`, zero-padded to `w`.
pub(crate) fn push_padded(out: &mut Vec<char>, n: u64, w: usize)
    ensures
        final(out)@ == old(out)@ + dec_padded(n as nat, w as nat),
{
    let mut digits: Vec<char> = Vec::new();
    let mut v = n;
    loop
        invariant_except_break
            dec_digits(n as nat) == dec_digits(v as nat) + digits@.reverse(),
        ensures
            dec_digits(n as nat) == digits@.reverse(),
        decreases v,
    {
        let d = (v % 10) as u8;
        let c = (0x30u8 + d) as char;
        let ghost before = digits@;
        digits.push(c);
        proof {
            assert(c == digit_char((v % 10) as int));
            assert(digits@.reverse() =~= seq![c] + before.reverse());
        }
        if v < 10 {
            proof {
                assert(dec_digits(v as nat) == seq![c]);
            }
            break;
        }
        proof {
            assert(dec_digits(v as nat) == dec_digits((v / 10) as nat).push(c));
            assert(dec_digits((v / 10) as nat).push(c) + before.reverse() =~= dec_digits(
                (v / 10) as nat,
            ) + digits@.reverse());
        }
        v = v / 10;
    }
    let ghost d = digits@.reverse();
    let ghost start = out@;
    let len = digits.len();
    let mut k: usize = len;
    while k < w
        invariant
            len == digits@.len(),
            len <= k <= w || k == len,
            out@ == start + Seq::new((k - len) as nat, |i: int| '0'),
        decreases w - k,
    {
        out.push('0');
        k = k + 1;
        proof {
            assert(out@ =~= start + Seq::new((k - len) as nat, |i: int| '0'));
        }
    }
    let ghost mid = out@;
    let mut j: usize = len;
    while j > 0
        invariant
            j <= len == digits@.len(),
            d == digits@.reverse(),
            out@ == mid + d.subrange(0, len - j),
        decreases j,
    {
        j = j - 1;
        out.push(digits[j]);
        proof {
            assert(d[len - j - 1] == digits@[j as int]);
            assert(out@ =~= mid + d.subrange(0, len - j));
        }
    }
    proof {
        assert(d.subrange(0, len as int) =~= d);
        if len >= w {
            assert(Seq::new((k - len) as nat, |i: int| '0') =~= Seq::<char>::empty());
            assert(out@ =~= start + dec_padded(n as nat, w as nat));
        } else {
            assert(out@ =~= start + dec_padded(n as nat, w as nat));
        }
    }
}


/// UTC timestamp `YYYY-MM-DDTHH:MM:SSZ` of a Unix time in seconds.
pub fn format_timestamp(secs: u64) -> (r: String)
    ensures
        r@ == spec_timestamp(secs),
{
    let s = secs % 60;
    let m = (secs / 60) % 60;
    let h = (secs / 3600) % 24;
    let days = secs / 86400;
    let (year, month, day) = days_to_ymd(days);
    let mut out: Vec<char> = Vec::new();
    push_padded(&mut out, year, 4);
    out.push('-');
    push_padded(&mut out, month, 2);
    out.push('-');
    push_padded(&mut out, day, 2);
    out.push('T');
    push_padded(&mut out, h, 2);
    out.push(':');
    push_padded(&mut out, m, 2);
    out.push(':');
    push_padded(&mut out, s, 2);
    out.push('Z');
    proof {
        assert(out@ =~= spec_timestamp(secs));
    }
    string_from_chars(out.as_slice())
}

/// Seconds since the Unix epoch according to the system clock (0 if the clock is
/// set before the epoch); the value depends on when it is called.
#[verifier::external_body]
fn unix_now_secs() -> (r: u64) {
    std::time::SystemTime::now().duration_since(std::time::UNIX_EPOCH).unwrap_or_default().as_secs()
}

/// The current UTC time as `YYYY-MM-DDTHH:MM:SSZ`.
pub fn chrono_now() -> (r: String)
    ensures
        exists|secs: u64| r@ == spec_timestamp(secs),
{
    let secs = unix_now_secs();
    format_timestamp(secs)
}

// ---------------------------------------------------------------- names and paths

/// The stem of a path's file name (`Path::file_stem`): the name without its extension.
pub uninterp spec fn path_file_stem(p: Seq<char>) -> Option<Seq<char>>;

/// `Path::file_stem`: the file name without its last extension; none when the path
/// has no file name (empty, root, or ending in `..`).
#[verifier::external_body]
fn file_stem_of(p: &str) -> (r: Option<String>)
    ensures
        match r {
            Some(s) => path_file_stem(p@) == Some(s@),
            None => path_file_stem(p@) is None,
        },
{
    std::path::Path::new(p).file_stem().and_then(|n| n.to_str()).map(|n| n.to_owned())
}

/// Whether `char::is_numeric` holds of a character (Unicode general categories Nd, Nl, No).
pub uninterp spec fn unicode_numeric(c: char) -> bool;

/// `char::is_alphanumeric`: alphabetic or numeric.
#[verifier::external_body]
fn char_is_alphanumeric(c: char) -> (r: bool)
    ensures
        r == (unicode_alphabetic(c) || unicode_numeric(c)),
{
    c.is_alphanumeric()
}

/// Each character kept when alphanumeric or `_`, else replaced by `_`.
pub open spec fn sanitized(cs: Seq<char>) -> Seq<char> {
    Seq::new(
        cs.len(),
        |i: int|
            if unicode_alphabetic(cs[i]) || unicode_numeric(cs[i]) || cs[i] == '_' {
                cs[i]
            } else {
                '_'
            },
    )
}

/// The file stem of a path (`file` when it has none), with every character other than
/// letters, digits and `_` replaced by `_`.
pub open spec fn spec_sanitize(p: Seq<char>) -> Seq<char> {
    sanitized(
        match path_file_stem(p) {
            Some(s) => s,
            None => seq!['f', 'i', 'l', 'e'],
        },
    )
}

/// A name for records of a dataset, made from its file stem.
pub fn sanitize(s: &str) -> (r: String)
    ensures
        r@ == spec_sanitize(s@),
{
    let stem = match file_stem_of(s) {
        Some(n) => chars_of(n.as_str()),
        None => {
            let mut v: Vec<char> = Vec::new();
            v.push('f');
            v.push('i');
            v.push('l');
            v.push('e');
            proof {
                assert(v@ =~= seq!['f', 'i', 'l', 'e']);
            }
            v
        },
    };
    let ghost src = stem@;
    let mut out: Vec<char> = Vec::new();
    let mut i: usize = 0;
    while i < stem.len()
        invariant
            i <= stem@.len(),
            src == stem@,
            out@ == sanitized(src).subrange(0, i as int),
        decreases stem.len() - i,
    {
        let c = stem[i];
        if char_is_alphanumeric(c) || c == '_' {
            out.push(c);
        } else {
            out.push('_');
        }
        i = i + 1;
        proof {
            assert(out@ =~= sanitized(src).subrange(0, i as int));
        }
    }
    proof {
        assert(sanitized(src).subrange(0, i as int) =~= sanitized(src));
    }
    string_from_chars(out.as_slice())
}

/// `base` joined with a relative file name, as `PathBuf::push` does (a `/` is added
/// unless `base` is empty or already ends with one).
pub open spec fn spec_join(base: Seq<char>, name: Seq<char>) -> Seq<char> {
    if base.len() == 0 || base.last() == '/' {
        base + name
    } else {
        base + seq!['/'] + name
    }
}

fn join_path(base: &str, name: &str) -> (r: String)
    ensures
        r@ == spec_join(base@, name@),
{
    let mut out = chars_of(base);
    let n = out.len();
    if n > 0 && out[n - 1] != '/' {
        out.push('/');
    }
    let tail = chars_of(name);
    let mut i: usize = 0;
    let ghost head = out@;
    while i < tail.len()
        invariant
            i <= tail@.len(),
            out@ == head + tail@.subrange(0, i as int),
        decreases tail.len() - i,
    {
        out.push(tail[i]);
        i = i + 1;
        proof {
            assert(out@ =~= head + tail@.subrange(0, i as int));
        }
    }
    proof {
        assert(tail@.subrange(0, i as int) =~= tail@);
        assert(out@ =~= spec_join(base@, name@));
    }
    string_from_chars(out.as_slice())
}

/// Where a file named `name` lives: in the home directory when there is one, else in
/// the current directory.
fn home_file(home: Option<&str>, name: &str) -> (r: String)
    ensures
        r@ == spec_join(
            match home {
                Some(h) => h@,
                None => seq!['.'],
            },
            name@,
        ),
{
    match home {
        Some(h) => join_path(h, name),
        None => {
            proof {
                reveal_strlit(".");
            }
            join_path(".", name)
        },
    }
}

/// Keeps the history of scans at `~/.zen-engine-history.json`.
pub struct HistoryManager {
    pub path: String,
}

impl HistoryManager {
    /// The history file in `home` (or in the current directory without one).
    pub fn new(home: Option<&str>) -> (r: Self)
        ensures
            r.path@ == spec_join(
                match home {
                    Some(h) => h@,
                    None => seq!['.'],
                },
                ".zen-engine-history.json"@,
            ),
    {
        HistoryManager { path: home_file(home, ".zen-engine-history.json") }
    }

    /// Deleting the records of `file_path`: the indices of the records that stay, in
    /// order, and how many go.
    pub fn delete_for(&self, record_paths: &[String], file_path: &str) -> (r: (Vec<usize>, usize))
        ensures
            r.0@.len() + r.1 == record_paths@.len(),
            r.0@ == kept_indices(record_paths@.map_values(|p: String| p@), file_path@, record_paths@.len() as int),
    {
        let target = chars_of(file_path);
        let mut kept: Vec<usize> = Vec::new();
        let mut i: usize = 0;
        while i < record_paths.len()
            invariant
                i <= record_paths@.len(),
                target@ == file_path@,
                kept@.len() <= i,
                kept@ == kept_indices(record_paths@.map_values(|p: String| p@), file_path@, i as int),
            decreases record_paths.len() - i,
        {
            let p = chars_of(record_paths[i].as_str());
            if !same_chars(&p, &target) {
                kept.push(i);
            }
            i = i + 1;
        }
        let removed = record_paths.len() - kept.len();
        (kept, removed)
    }
}

/// Indices below `n` whose path differs from `target`.
pub open spec fn kept_indices(paths: Seq<Seq<char>>, target: Seq<char>, n: int) -> Seq<usize>
    decreases n,
{
    if n <= 0 {
        Seq::empty()
    } else {
        let before = kept_indices(paths, target, n - 1);
        if paths[n - 1] != target {
            before.push((n - 1) as usize)
        } else {
            before
        }
    }
}

fn same_chars(a: &Vec<char>, b: &Vec<char>) -> (r: bool)
    ensures
        r == (a@ == b@),
{
    if a.len() != b.len() {
        return false;
    }
    let mut i: usize = 0;
    while i < a.len()
        invariant
            a@.len() == b@.len(),
            i <= a@.len(),
            forall|k: int| 0 <= k < i ==> a@[k] == b@[k],
        decreases a.len() - i,
    {
        if a[i] != b[i] {
            return false;
        }
        i = i + 1;
    }
    proof {
        assert(a@ =~= b@);
    }
    true
}

/// Keeps the analysis profiles at `~/.zen-engine-config.json`.
pub struct ConfigManager {
    pub path: String,
}

impl ConfigManager {
    /// The configuration file in `home` (or in the current directory without one).
    pub fn new(home: Option<&str>) -> (r: Self)
        ensures
            r.path@ == spec_join(
                match home {
                    Some(h) => h@,
                    None => seq!['.'],
                },
                ".zen-engine-config.json"@,
            ),
    {
        ConfigManager { path: home_file(home, ".zen-engine-config.json") }
    }
}

/// `:` turned into `-`.
pub open spec fn colon_to_dash(cs: Seq<char>) -> Seq<char> {
    Seq::new(cs.len(), |i: int| if cs[i] == ':' { '-' } else { cs[i] })
}

/// Identifier of a scan record: the sanitized file stem, `-`, and the characters of the
/// first 19 bytes of the timestamp with `:` turned into `-`.
pub open spec fn spec_record_id(file_path: Seq<char>, timestamp_bytes: Seq<u8>) -> Seq<char> {
    spec_sanitize(file_path) + seq!['-'] + colon_to_dash(decode_utf8(timestamp_bytes.subrange(0, 19)))
}

/// The identifier under which a scan of `file_path` at `timestamp` is recorded. The
/// timestamp must hold a character boundary at byte 19 (a clock reading always does).
pub fn record_id(file_path: &str, timestamp: &str) -> (r: String)
    requires
        is_char_boundary(timestamp.spec_bytes(), 19),
    ensures
        r@ == spec_record_id(file_path@, timestamp.spec_bytes()),
{
    let name = sanitize(file_path);
    let mut out = chars_of(name.as_str());
    out.push('-');
    let (prefix, _) = timestamp.split_at(19);
    let ts = chars_of(prefix);
    proof {
        vstd::utf8::encode_utf8_decode_utf8(prefix@);
        assert(decode_utf8(timestamp.spec_bytes().subrange(0, 19)) == prefix@);
    }
    let ghost head = out@;
    let n = ts.len();
    let mut i: usize = 0;
    while i < n
        invariant
            i <= n == ts@.len(),
            out@ == head + colon_to_dash(ts@.take(i as int)),
        decreases n - i,
    {
        let c = ts[i];
        out.push(if c == ':' {
            '-'
        } else {
            c
        });
        i = i + 1;
        proof {
            assert(out@ =~= head + colon_to_dash(ts@.take(i as int)));
        }
    }
    proof {
        assert(ts@.take(n as int) =~= ts@);
    }
    string_from_chars(out.as_slice())
}

// -------------------------------------------------------------- comparison

/// Where a column of a comparison of two scans appears.
#[derive(Debug, Clone, Copy, PartialEq, Eq, Structural)]
pub enum DiffStatus {
    Changed,
    OnlyInA,
    OnlyInB,
}

/// One column of a comparison of two scans: its name, where it appears, and which
/// entry of each scan's column list describes it (the last entry of that name).
pub struct ColumnPairing {
    pub column: String,
    pub status: DiffStatus,
    pub a_index: Option<usize>,
    pub b_index: Option<usize>,
}

/// Index of the last entry equal to `name`, if any.
pub open spec fn last_index(names: Seq<Seq<char>>, name: Seq<char>) -> Option<usize>
    decreases names.len(),
{
    if names.len() == 0 {
        None
    } else if names.last() == name {
        Some((names.len() - 1) as usize)
    } else {
        last_index(names.drop_last(), name)
    }
}

pub open spec fn status_of(a: Option<usize>, b: Option<usize>) -> DiffStatus {
    match (a, b) {
        (Some(_), Some(_)) => DiffStatus::Changed,
        (Some(_), None) => DiffStatus::OnlyInA,
        _ => DiffStatus::OnlyInB,
    }
}

/// Strictly increasing in code point order, so without repeats.
pub open spec fn strictly_sorted(v: Seq<Seq<char>>) -> bool {
    forall|i: int, j: int| 0 <= i < j < v.len() ==> text_lt(#[trigger] v[i], #[trigger] v[j])
}

pub open spec fn chars_views(v: Seq<Vec<char>>) -> Seq<Seq<char>> {
    v.map_values(|c: Vec<char>| c@)
}

/// Adds `x` to a sorted list of names unless it is there already.
fn insert_sorted(v: &mut Vec<Vec<char>>, x: Vec<char>)
    requires
        strictly_sorted(chars_views(old(v)@)),
    ensures
        strictly_sorted(chars_views(final(v)@)),
        forall|s: Seq<char>| chars_views(final(v)@).contains(s) <==> (chars_views(old(v)@).contains(s) || s
            == x@),
{
    let ghost old_v = chars_views(v@);
    let mut j: usize = 0;
    while j < v.len() && chars_lt(v[j].as_slice(), x.as_slice())
        invariant
            j <= v@.len(),
            old_v == chars_views(v@),
            forall|k: int| 0 <= k < j ==> text_lt(#[trigger] old_v[k], x@),
        decreases v@.len() - j,
    {
        j = j + 1;
    }
    if j < v.len() && chars_eq(v[j].as_slice(), x.as_slice()) {
        proof {
            assert forall|s: Seq<char>| chars_views(v@).contains(s) <==> (old_v.contains(s) || s == x@) by {
                if s == x@ {
                    assert(old_v[j as int] == s);
                }
            }
        }
        return;
    }
    proof {
        if j < v@.len() {
            lemma_text_lt_total(old_v[j as int], x@);
            assert(text_lt(x@, old_v[j as int]));
            assert forall|k: int| j < k < old_v.len() implies text_lt(x@, #[trigger] old_v[k]) by {
                lemma_text_lt_transitive(x@, old_v[j as int], old_v[k]);
            }
        }
    }
    let ghost xv = x@;
    v.insert(j, x);
    proof {
        let w = chars_views(v@);
        assert(w =~= old_v.insert(j as int, xv));
        assert forall|p: int, q: int| 0 <= p < q < w.len() implies text_lt(#[trigger] w[p], #[trigger] w[q]) by {
            if q < j {
                assert(w[p] == old_v[p] && w[q] == old_v[q]);
            } else if q == j {
                assert(w[p] == old_v[p]);
            } else if p < j {
                assert(w[p] == old_v[p] && w[q] == old_v[q - 1]);
                lemma_text_lt_transitive(old_v[p], xv, old_v[q - 1]);
            } else if p == j {
                assert(w[q] == old_v[q - 1]);
            } else {
                assert(w[p] == old_v[p - 1] && w[q] == old_v[q - 1]);
            }
        }
        assert forall|s: Seq<char>| w.contains(s) <==> (old_v.contains(s) || s == xv) by {
            if w.contains(s) {
                let p = choose|p: int| 0 <= p < w.len() && w[p] == s;
                if p < j {
                    assert(old_v[p] == s);
                } else if p > j {
                    assert(old_v[p - 1] == s);
                }
            }
            if old_v.contains(s) {
                let p = choose|p: int| 0 <= p < old_v.len() && old_v[p] == s;
                if p < j {
                    assert(w[p] == s);
                } else {
                    assert(w[p + 1] == s);
                }
            }
            if s == xv {
                assert(w[j as int] == s);
            }
        }
    }
}

/// The last index of `name` among the names.
fn find_last(names: &Vec<Vec<char>>, name: &[char]) -> (r: Option<usize>)
    ensures
        r == last_index(chars_views(names@), name@),
{
    let ghost nv = chars_views(names@);
    let mut k: usize = names.len();
    proof {
        assert(nv.take(nv.len() as int) =~= nv);
    }
    while k > 0
        invariant
            k <= names@.len(),
            nv == chars_views(names@),
            last_index(nv, name@) == last_index(nv.take(k as int), name@),
        decreases k,
    {
        proof {
            assert(nv.take(k as int).drop_last() =~= nv.take(k - 1));
        }
        if chars_eq(names[k - 1].as_slice(), name) {
            return Some(k - 1);
        }
        k = k - 1;
    }
    None
}

fn all_chars(v: &[String]) -> (r: Vec<Vec<char>>)
    ensures
        chars_views(r@) == strings_view(v@),
{
    let mut out: Vec<Vec<char>> = Vec::new();
    let mut i: usize = 0;
    while i < v.len()
        invariant
            i <= v@.len(),
            chars_views(out@) == strings_view(v@.take(i as int)),
        decreases v@.len() - i,
    {
        let cs = chars_of(v[i].as_str());
        let ghost before = chars_views(out@);
        out.push(cs);
        proof {
            assert(cs@ == v@[i as int]@);
            assert(chars_views(out@) =~= before.push(cs@));
            assert(strings_view(v@.take(i + 1)) =~= strings_view(v@.take(i as int)).push(v@[i as int]@));
        }
        i = i + 1;
    }
    proof {
        assert(v@.take(v@.len() as int) =~= v@);
    }
    out
}

impl HistoryManager {
    /// Pairs the columns of two scans by name: every name of either scan once, in code
    /// point order, with the entry of each scan that describes it (the last entry of
    /// that name) and whether it appears in both, only in the first or only in the second.
    pub fn compare_columns(a: &[String], b: &[String]) -> (r: Vec<ColumnPairing>)
        ensures
            forall|i: int, j: int| 0 <= i < j < r@.len() ==> text_lt(#[trigger] r@[i].column@, #[trigger] r@[j].column@),
            forall|k: int| #![trigger a@[k]] 0 <= k < a@.len() ==> exists|i: int| #![trigger r@[i]] 0 <= i < r@.len() && r@[i].column@ == a@[k]@,
            forall|k: int| #![trigger b@[k]] 0 <= k < b@.len() ==> exists|i: int| #![trigger r@[i]] 0 <= i < r@.len() && r@[i].column@ == b@[k]@,
            forall|i: int| 0 <= i < r@.len() ==> {
                let c = (#[trigger] r@[i]).column@;
                &&& r@[i].a_index == last_index(strings_view(a@), c)
                &&& r@[i].b_index == last_index(strings_view(b@), c)
                &&& r@[i].status == status_of(r@[i].a_index, r@[i].b_index)
                &&& (r@[i].a_index is Some || r@[i].b_index is Some)
            },
    {
        let ac = all_chars(a);
        let bc = all_chars(b);
        let ghost av = strings_view(a@);
        let ghost bv = strings_view(b@);
        let mut names: Vec<Vec<char>> = Vec::new();
        let mut k: usize = 0;
        proof {
            assert(av.take(0) =~= Seq::<Seq<char>>::empty());
        }
        while k < ac.len()
            invariant
                k <= ac@.len(),
                ac@.len() == a@.len(),
                av == strings_view(a@),
                chars_views(ac@) == av,
                strictly_sorted(chars_views(names@)),
                forall|s: Seq<char>| #[trigger] chars_views(names@).contains(s) <==> av.take(k as int).contains(s),
            decreases ac@.len() - k,
        {
            let x = chars_of(a[k].as_str());
            insert_sorted(&mut names, x);
            proof {
                assert(x@ == av[k as int]);
                assert forall|s: Seq<char>| chars_views(names@).contains(s) <==> av.take(k + 1).contains(s) by {
                    lemma_take_push_contains(av, k as int, s);
                }
            }
            k = k + 1;
        }
        let mut k: usize = 0;
        proof {
            assert(av.take(av.len() as int) =~= av);
            assert(bv.take(0) =~= Seq::<Seq<char>>::empty());
        }
        while k < bc.len()
            invariant
                k <= bc@.len(),
                bc@.len() == b@.len(),
                av == strings_view(a@),
                bv == strings_view(b@),
                chars_views(bc@) == bv,
                strictly_sorted(chars_views(names@)),
                forall|s: Seq<char>| #[trigger] chars_views(names@).contains(s) <==> (av.contains(s) || bv.take(
                    k as int,
                ).contains(s)),
            decreases bc@.len() - k,
        {
            let x = chars_of(b[k].as_str());
            let ghost before = chars_views(names@);
            insert_sorted(&mut names, x);
            proof {
                assert(x@ == bv[k as int]);
                assert forall|s: Seq<char>| chars_views(names@).contains(s) <==> (av.contains(s) || bv.take(
                    k + 1,
                ).contains(s)) by {
                    lemma_take_push_contains(bv, k as int, s);
                    assert(chars_views(names@).contains(s) <==> (before.contains(s) || s == x@));
                    assert(before.contains(s) <==> (av.contains(s) || bv.take(k as int).contains(s)));
                }
            }
            k = k + 1;
        }
        let ghost nv = chars_views(names@);
        proof {
            assert(bv.take(bv.len() as int) =~= bv);
            assert forall|s: Seq<char>| nv.contains(s) <==> (av.contains(s) || bv.contains(s)) by {
                assert(nv.contains(s) <==> (av.contains(s) || bv.take(k as int).contains(s)));
            }
        }
        let mut out: Vec<ColumnPairing> = Vec::new();
        let mut i: usize = 0;
        while i < names.len()
            invariant
                i <= names@.len(),
                nv == chars_views(names@),
                forall|s: Seq<char>| nv.contains(s) <==> (av.contains(s) || bv.contains(s)),
                av == strings_view(a@),
                bv == strings_view(b@),
                chars_views(ac@) == av,
                chars_views(bc@) == bv,
                out@.len() == i,
                forall|p: int| 0 <= p < i ==> (#[trigger] out@[p]).column@ == nv[p],
                forall|p: int| 0 <= p < i ==> {
                    let c = (#[trigger] out@[p]).column@;
                    &&& out@[p].a_index == last_index(av, c)
                    &&& out@[p].b_index == last_index(bv, c)
                    &&& out@[p].status == status_of(out@[p].a_index, out@[p].b_index)
                },
            decreases names@.len() - i,
        {
            let ai = find_last(&ac, names[i].as_slice());
            let bi = find_last(&bc, names[i].as_slice());
            let status = match (ai, bi) {
                (Some(_), Some(_)) => DiffStatus::Changed,
                (Some(_), None) => DiffStatus::OnlyInA,
                _ => DiffStatus::OnlyInB,
            };
            let column = string_from_chars(names[i].as_slice());
            out.push(ColumnPairing { column, status, a_index: ai, b_index: bi });
            i = i + 1;
        }
        proof {
            assert forall|k: int| #![trigger a@[k]] 0 <= k < a@.len() implies exists|i: int| #![trigger out@[i]] 0 <= i < out@.len() && out@[i].column@ == a@[k]@ by {
                assert(av[k] == a@[k]@);
                assert(nv.contains(av[k]));
                let i = choose|i: int| 0 <= i < nv.len() && nv[i] == av[k];
                assert(out@[i].column@ == a@[k]@);
            }
            assert forall|k: int| #![trigger b@[k]] 0 <= k < b@.len() implies exists|i: int| #![trigger out@[i]] 0 <= i < out@.len() && out@[i].column@ == b@[k]@ by {
                assert(bv.take(bv.len() as int) =~= bv);
                assert(bv[k] == b@[k]@);
                assert(nv.contains(bv[k]));
                let i = choose|i: int| 0 <= i < nv.len() && nv[i] == bv[k];
                assert(out@[i].column@ == b@[k]@);
            }
            assert forall|i: int| 0 <= i < out@.len() implies (out@[i].a_index is Some || out@[i].b_index is Some) by {
                let c = out@[i].column@;
                assert(nv[i] == c);
                assert(nv.contains(c));
                assert(bv.take(bv.len() as int) =~= bv);
                if av.contains(c) {
                    let k = choose|k: int| 0 <= k < av.len() && av[k] == c;
                    lemma_last_index_found(av, c, k);
                } else {
                    let k = choose|k: int| 0 <= k < bv.len() && bv[k] == c;
                    lemma_last_index_found(bv, c, k);
                }
            }
        }
        out
    }
}

proof fn lemma_take_push_contains(v: Seq<Seq<char>>, k: int, s: Seq<char>)
    requires
        0 <= k < v.len(),
    ensures
        v.take(k + 1).contains(s) <==> (v.take(k).contains(s) || s == v[k]),
{
    if v.take(k + 1).contains(s) {
        let p = choose|p: int| 0 <= p < k + 1 && #[trigger] v.take(k + 1)[p] == s;
        if p < k {
            assert(v.take(k)[p] == s);
        }
    }
    if v.take(k).contains(s) {
        let p = choose|p: int| 0 <= p < k && #[trigger] v.take(k)[p] == s;
        assert(v.take(k + 1)[p] == s);
    }
    if s == v[k] {
        assert(v.take(k + 1)[k] == s);
    }
}

proof fn lemma_last_index_found(names: Seq<Seq<char>>, name: Seq<char>, k: int)
    requires
        0 <= k < names.len(),
        names[k] == name,
    ensures
        last_index(names, name) is Some,
    decreases names.len(),
{
    if names.last() != name {
        assert(names.drop_last()[k] == name);
        lemma_last_index_found(names.drop_last(), name, k);
    }
}

/// Indices below `n` of the records kept by a listing: all of them without a filter,
/// else those whose path contains the filter.
pub open spec fn listed_indices(paths: Seq<Seq<char>>, filter: Option<Seq<char>>, n: int) -> Seq<usize>
    decreases n,
{
    if n <= 0 {
        Seq::empty()
    } else {
        let before = listed_indices(paths, filter, n - 1);
        match filter {
            Some(f) => if text_contains(paths[n - 1], f) {
                before.push((n - 1) as usize)
            } else {
                before
            },
            None => before.push((n - 1) as usize),
        }
    }
}

impl HistoryManager {
    /// Listing the records: the indices of those whose path contains `path_filter`
    /// (all of them without one), in order.
    pub fn list(&self, record_paths: &[String], path_filter: Option<&str>) -> (r: Vec<usize>)
        ensures
            r@ == listed_indices(
                strings_view(record_paths@),
                match path_filter {
                    Some(f) => Some(f@),
                    None => None,
                },
                record_paths@.len() as int,
            ),
    {
        let ghost pv = strings_view(record_paths@);
        let ghost fv = match path_filter {
            Some(f) => Some(f@),
            None => None,
        };
        let needle: Option<Vec<char>> = match path_filter {
            Some(f) => Some(chars_of(f)),
            None => None,
        };
        let mut out: Vec<usize> = Vec::new();
        let mut i: usize = 0;
        while i < record_paths.len()
            invariant
                i <= record_paths@.len(),
                pv == strings_view(record_paths@),
                fv == (match path_filter {
                    Some(f) => Some(f@),
                    None => None::<Seq<char>>,
                }),
                match needle {
                    Some(n) => fv == Some(n@),
                    None => fv is None,
                },
                out@ == listed_indices(pv, fv, i as int),
            decreases record_paths@.len() - i,
        {
            let keep = match &needle {
                Some(n) => {
                    let hay = chars_of(record_paths[i].as_str());
                    contains_text(&hay, n)
                },
                None => true,
            };
            proof {
                assert(pv[i as int] == record_paths@[i as int]@);
            }
            if keep {
                out.push(i);
            }
            i = i + 1;
        }
        out
    }

    /// The most recent record of `file_path`: the last one with exactly that path.
    pub fn latest_for(&self, record_paths: &[String], file_path: &str) -> (r: Option<usize>)
        ensures
            r == last_index(strings_view(record_paths@), file_path@),
    {
        let all = all_chars(record_paths);
        let target = chars_of(file_path);
        find_last(&all, target.as_slice())
    }
}

} // verus!
