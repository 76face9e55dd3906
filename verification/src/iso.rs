//! ISO-8601 UTC timestamps (`2024-01-02T03:04:05Z`) and Unix seconds, by
//! the days-from-civil and civil-from-days formulas of the Gregorian
//! calendar.

use vstd::prelude::*;
use crate::num::{all_digits, digits_val, first_index, first_index_found, is_digit};
use crate::text::{chars_of, string_of};

verus! {

/// `s` without its trailing `Z`s.
pub open spec fn trim_z(s: Seq<char>) -> Seq<char>
    decreases s.len(),
{
    if s.len() > 0 && s.last() == 'Z' {
        trim_z(s.drop_last())
    } else {
        s
    }
}

/// The pieces of `s` between separators `sep`.
pub open spec fn split_on(s: Seq<char>, sep: char) -> Seq<Seq<char>>
    decreases s.len(),
{
    let i = first_index(s, sep);
    if i < 0 {
        seq![s]
    } else {
        proof {
            crate::num::lemma_first_index(s, sep);
        }
        seq![s.take(i)] + split_on(s.skip(i + 1), sep)
    }
}

/// A signed decimal integer as `str::parse::<i64>` reads it: an optional
/// `+` or `-`, then at least one digit, within the `i64` range.
pub open spec fn spec_parse_i64(t: Seq<char>) -> Option<int> {
    let neg = t.len() > 0 && t[0] == '-';
    let d = if t.len() > 0 && (t[0] == '+' || t[0] == '-') {
        t.drop_first()
    } else {
        t
    };
    if d.len() > 0 && all_digits(d) {
        let v = if neg {
            -digits_val(d)
        } else {
            digits_val(d)
        };
        if i64::MIN <= v <= i64::MAX {
            Some(v)
        } else {
            None
        }
    } else {
        None
    }
}

/// The six numbers of a timestamp text: year, month, day, hour, minute,
/// second. Trailing `Z`s are dropped; the date is before the first `T`,
/// split on `-`; the time is after it, cut at the first `.`, split on
/// `:`. Parts beyond the third are ignored.
pub open spec fn spec_iso_parts(s: Seq<char>) -> Option<(int, int, int, int, int, int)> {
    let u = trim_z(s);
    let t = first_index(u, 'T');
    if t < 0 {
        None
    } else {
        let date = split_on(u.take(t), '-');
        let rest = u.skip(t + 1);
        let time = split_on(split_on(rest, '.')[0], ':');
        if date.len() < 3 || time.len() < 3 {
            None
        } else {
            match (
                spec_parse_i64(date[0]),
                spec_parse_i64(date[1]),
                spec_parse_i64(date[2]),
                spec_parse_i64(time[0]),
                spec_parse_i64(time[1]),
                spec_parse_i64(time[2]),
            ) {
                (Some(y), Some(m), Some(d), Some(hh), Some(mm), Some(ss)) => Some((y, m, d, hh, mm, ss)),
                _ => None,
            }
        }
    }
}

/// Division rounding toward zero, as `/` on Rust integers.
pub open spec fn tdiv(a: int, b: int) -> int {
    if a >= 0 {
        a / b
    } else {
        -((-a) / b)
    }
}

pub open spec fn fits64(v: int) -> bool {
    i64::MIN <= v <= i64::MAX
}

/// Seconds since the epoch of a civil date and time, by days-from-civil:
/// the year is shifted to start in March, `era` is the 400-year cycle
/// (rounded down), and the day of the era counts 365 days a year plus the
/// leap days.
pub open spec fn civil_secs(p: (int, int, int, int, int, int)) -> int {
    let (y, m, d, hh, mm, ss) = p;
    let m_adj = if m <= 2 { m + 12 } else { m };
    let y_adj = if m <= 2 { y - 1 } else { y };
    let era = y_adj / 400;
    let yoe = y_adj - era * 400;
    let doy = tdiv(153 * (m_adj - 3) + 2, 5) + d - 1;
    let doe = yoe * 365 + yoe / 4 - yoe / 100 + doy;
    let days = era * 146097 + doe - 719468;
    days * 86400 + hh * 3600 + mm * 60 + ss
}

/// Every value the conversion computes on the way fits in an `i64`.
pub open spec fn steps_fit(p: (int, int, int, int, int, int)) -> bool {
    let (y, m, d, hh, mm, ss) = p;
    let m_adj = if m <= 2 { m + 12 } else { m };
    let y_adj = if m <= 2 { y - 1 } else { y };
    let era = y_adj / 400;
    let yoe = y_adj - era * 400;
    let a = 153 * (m_adj - 3);
    let c = tdiv(a + 2, 5) + d;
    let doy = c - 1;
    let doe = yoe * 365 + yoe / 4 - yoe / 100 + doy;
    let e146 = era * 146097;
    let days = e146 + doe - 719468;
    &&& fits64(m_adj) && fits64(y_adj) && fits64(a) && fits64(a + 2) && fits64(c) && fits64(doy)
    &&& fits64(doe) && fits64(e146) && fits64(e146 + doe) && fits64(days)
    &&& fits64(days * 86400) && fits64(hh * 3600) && fits64(mm * 60)
    &&& fits64(days * 86400 + hh * 3600) && fits64(days * 86400 + hh * 3600 + mm * 60)
    &&& fits64(civil_secs(p))
}

/// Seconds since the Unix epoch of a timestamp text, when it parses.
pub open spec fn spec_parse_iso_secs(s: Seq<char>) -> Option<int> {
    match spec_iso_parts(s) {
        Some(p) => Some(civil_secs(p)),
        None => None,
    }
}

/// The text parses, and the conversion overflows an `i64` on the way.
pub open spec fn iso_overflows_spec(s: Seq<char>) -> bool {
    match spec_iso_parts(s) {
        Some(p) => !steps_fit(p),
        None => false,
    }
}


fn trim_z_chars(cs: &Vec<char>) -> (r: usize)
    ensures
        r <= cs@.len(),
        trim_z(cs@) == cs@.take(r as int),
{
    let mut n = cs.len();
    proof {
        assert(cs@.take(n as int) =~= cs@);
    }
    while n > 0 && cs[n - 1] == 'Z'
        invariant
            n <= cs@.len(),
            trim_z(cs@) == trim_z(cs@.take(n as int)),
        decreases n,
    {
        proof {
            let t = cs@.take(n as int);
            assert(t.last() == 'Z');
            assert(t.drop_last() =~= cs@.take(n - 1));
        }
        n = n - 1;
    }
    proof {
        let t = cs@.take(n as int);
        if n > 0 {
            assert(t.last() == cs@[n - 1]);
        }
    }
    n
}

fn slice_chars(cs: &Vec<char>, lo: usize, hi: usize) -> (r: Vec<char>)
    requires
        lo <= hi <= cs@.len(),
    ensures
        r@ == cs@.subrange(lo as int, hi as int),
{
    let mut out: Vec<char> = Vec::new();
    let mut i = lo;
    while i < hi
        invariant
            lo <= i <= hi <= cs@.len(),
            out@ == cs@.subrange(lo as int, i as int),
        decreases hi - i,
    {
        out.push(cs[i]);
        proof {
            assert(cs@.subrange(lo as int, i as int + 1) =~= cs@.subrange(lo as int, i as int).push(cs@[i as int]));
        }
        i = i + 1;
    }
    out
}

pub open spec fn part_views(v: Seq<Vec<char>>) -> Seq<Seq<char>> {
    v.map_values(|p: Vec<char>| p@)
}

/// The pieces of `cs` between separators.
fn split_chars(cs: &Vec<char>, sep: char) -> (r: Vec<Vec<char>>)
    ensures
        part_views(r@) == split_on(cs@, sep),
{
    let n = cs.len();
    let mut parts: Vec<Vec<char>> = Vec::new();
    let mut start: usize = 0;
    let mut i: usize = 0;
    proof {
        assert(cs@.skip(0) =~= cs@);
    }
    while i < n
        invariant
            start <= i <= n == cs@.len(),
            part_views(parts@) + split_on(cs@.skip(start as int), sep) == split_on(cs@, sep),
            forall|j: int| start <= j < i ==> cs@[j] != sep,
        decreases n - i,
    {
        if cs[i] == sep {
            let piece = slice_chars(cs, start, i);
            let ghost t = cs@.skip(start as int);
            proof {
                assert forall|j: int| 0 <= j < i - start implies t[j] != sep by {
                    assert(t[j] == cs@[start + j]);
                }
                assert(t[i - start] == sep);
                crate::num::first_index_found(t, sep, i - start);
                assert(t.take(i - start) =~= piece@);
                assert(t.skip(i - start + 1) =~= cs@.skip(i as int + 1));
                assert(split_on(t, sep) == seq![piece@] + split_on(cs@.skip(i as int + 1), sep));
            }
            let ghost before = part_views(parts@);
            parts.push(piece);
            proof {
                assert(part_views(parts@) =~= before.push(piece@));
                assert(part_views(parts@) + split_on(cs@.skip(i as int + 1), sep) =~= before + (seq![piece@]
                    + split_on(cs@.skip(i as int + 1), sep)));
            }
            start = i + 1;
        }
        i = i + 1;
    }
    let last = slice_chars(cs, start, n);
    proof {
        let t = cs@.skip(start as int);
        assert forall|j: int| 0 <= j < t.len() implies t[j] != sep by {
            assert(t[j] == cs@[start + j]);
        }
        crate::num::first_index_found(t, sep, t.len() as int);
        assert(t =~= last@);
    }
    let ghost before = part_views(parts@);
    parts.push(last);
    proof {
        assert(part_views(parts@) =~= before.push(last@));
    }
    parts
}

/// Parse a signed decimal integer as `str::parse::<i64>` does.
pub fn parse_i64(t: &Vec<char>) -> (r: Option<i64>)
    ensures
        match r {
            Some(v) => spec_parse_i64(t@) == Some(v as int),
            None => spec_parse_i64(t@) is None,
        },
{
    let n = t.len();
    let neg = n > 0 && t[0] == '-';
    let start: usize = if n > 0 && (t[0] == '+' || t[0] == '-') { 1 } else { 0 };
    let ghost d = t@.skip(start as int);
    proof {
        if start == 1 {
            assert(d =~= t@.drop_first());
        } else {
            assert(d =~= t@);
        }
    }
    if start == n {
        return None;
    }
    let mut v: u128 = 0;
    let mut i: usize = start;
    proof {
        assert(d.take(0) =~= Seq::<char>::empty());
    }
    while i < n
        invariant
            start <= i <= n == t@.len(),
            start < n,
            start == (if t@.len() > 0 && (t@[0] == '+' || t@[0] == '-') { 1usize } else { 0usize }),
            neg == (t@.len() > 0 && t@[0] == '-'),
            d == t@.skip(start as int),
            d == (if t@.len() > 0 && (t@[0] == '+' || t@[0] == '-') { t@.drop_first() } else { t@ }),
            all_digits(d.take(i - start)),
            v == digits_val(d.take(i - start)),
            v <= 0x8000_0000_0000_0000,
        decreases n - i,
    {
        let c = t[i];
        let ghost p = d.take(i - start);
        let ghost q = d.take(i - start + 1);
        proof {
            assert(q.drop_last() =~= p);
            assert(q.last() == c);
        }
        if !('0' <= c && c <= '9') {
            proof {
                assert(d[i - start] == c);
                assert(!is_digit(d[i - start]));
            }
            return None;
        }
        proof {
            assert forall|k: int| 0 <= k < q.len() implies is_digit(#[trigger] q[k]) by {
                if k < p.len() {
                    assert(q[k] == p[k]);
                }
            }
        }
        let nv = v * 10 + ((c as u32 - '0' as u32) as u128);
        if nv > 0x8000_0000_0000_0000 {
            proof {
                assert(digits_val(q) == nv);
                lemma_digits_prefix_le(d, i - start + 1);
            }
            return None;
        }
        v = nv;
        i = i + 1;
    }
    proof {
        assert(d.take(i - start) =~= d);
    }
    if neg {
        Some((0 - (v as i128)) as i64)
    } else {
        if v > 0x7fff_ffff_ffff_ffff {
            return None;
        }
        Some(v as i64)
    }
}

/// A prefix of a digit string never spells more than the whole.
proof fn lemma_digits_prefix_le(s: Seq<char>, k: int)
    requires
        0 <= k <= s.len(),
        all_digits(s.take(k)),
    ensures
        all_digits(s) ==> digits_val(s.take(k)) <= digits_val(s),
    decreases s.len() - k,
{
    if k < s.len() && all_digits(s) {
        let p = s.take(k);
        let q = s.take(k + 1);
        assert(q.drop_last() == p);
        assert(all_digits(q)) by {
            assert forall|j: int| 0 <= j < q.len() implies is_digit(#[trigger] q[j]) by {
                assert(q[j] == s[j]);
            }
        }
        assert(is_digit(s[k]));
        crate::num::lemma_digits_val_bound(p);
        lemma_digits_prefix_le(s, k + 1);
        assert(s.take(s.len() as int) == s);
    }
    if k == s.len() {
        assert(s.take(k) == s);
    }
}

fn iso_parts(s: &str) -> (r: Option<(i64, i64, i64, i64, i64, i64)>)
    ensures
        match r {
            Some(p) => spec_iso_parts(s@) == Some((p.0 as int, p.1 as int, p.2 as int, p.3 as int, p.4 as int, p.5 as int)),
            None => spec_iso_parts(s@) is None,
        },
{
    let cs = chars_of(s);
    let n = trim_z_chars(&cs);
    let u = slice_chars(&cs, 0, n);
    proof {
        assert(u@ =~= trim_z(s@));
    }
    let mut t: usize = 0;
    while t < u.len() && u[t] != 'T'
        invariant
            t <= u@.len(),
            forall|j: int| 0 <= j < t ==> u@[j] != 'T',
        decreases u.len() - t,
    {
        t = t + 1;
    }
    proof {
        crate::num::first_index_found(u@, 'T', t as int);
    }
    if t == u.len() {
        return None;
    }
    let date_txt = slice_chars(&u, 0, t);
    let rest = slice_chars(&u, t + 1, u.len());
    proof {
        assert(date_txt@ =~= u@.take(t as int));
        assert(rest@ =~= u@.skip(t as int + 1));
    }
    let date = split_chars(&date_txt, '-');
    let pieces = split_chars(&rest, '.');
    proof {
        assert(split_on(rest@, '.').len() > 0) by {
            reveal_with_fuel(split_on, 2);
        }
    }
    let time = split_chars(&pieces[0], ':');
    if date.len() < 3 || time.len() < 3 {
        return None;
    }
    let y = parse_i64(&date[0]);
    let m = parse_i64(&date[1]);
    let d = parse_i64(&date[2]);
    let hh = parse_i64(&time[0]);
    let mm = parse_i64(&time[1]);
    let ss = parse_i64(&time[2]);
    match (y, m, d, hh, mm, ss) {
        (Some(y), Some(m), Some(d), Some(hh), Some(mm), Some(ss)) => Some((y, m, d, hh, mm, ss)),
        _ => None,
    }
}

fn fits(v: i128) -> (r: bool)
    ensures
        r == fits64(v as int),
{
    -0x8000_0000_0000_0000 <= v && v <= 0x7fff_ffff_ffff_ffff
}

/// `a / b` rounded toward zero.
fn tdiv_exec(a: i128, b: i128) -> (r: i128)
    requires
        b > 0,
        -0x1_0000_0000_0000_0000_0000_0000_0000 < a < 0x1_0000_0000_0000_0000_0000_0000_0000,
    ensures
        r == tdiv(a as int, b as int),
{
    if a >= 0 {
        ((a as u128) / (b as u128)) as i128
    } else {
        let n = (0 - a) as u128;
        0 - ((n / (b as u128)) as i128)
    }
}

/// `a / b` rounded down.
fn floor_div_exec(a: i128, b: i128) -> (r: i128)
    requires
        b > 0,
        -0x1_0000_0000_0000_0000_0000_0000_0000 < a < 0x1_0000_0000_0000_0000_0000_0000_0000,
        b < 0x1_0000_0000,
    ensures
        r == a as int / b as int,
{
    if a >= 0 {
        ((a as u128) / (b as u128)) as i128
    } else {
        let n = (0 - a) as u128;
        let c = (n + (b as u128) - 1) / (b as u128);
        proof {
            let ni = n as int;
            let bi = b as int;
            let ci = c as int;
            let ai = a as int;
            assert(ci * bi <= ni + bi - 1 < ci * bi + bi) by (nonlinear_arith)
                requires
                    bi > 0,
                    ci == (ni + bi - 1) / bi,
                    ni + bi - 1 >= 0,
            ;
            assert((-ci) * bi <= ai && ai < (-ci) * bi + bi) by (nonlinear_arith)
                requires
                    ci * bi <= ni + bi - 1 < ci * bi + bi,
                    ni == -ai,
                    bi > 0,
            ;
            vstd::arithmetic::div_mod::lemma_fundamental_div_mod(ai, bi);
            vstd::arithmetic::div_mod::lemma_mod_bound(ai, bi);
            assert(ai / bi == -ci) by (nonlinear_arith)
                requires
                    (-ci) * bi <= ai && ai < (-ci) * bi + bi,
                    ai == bi * (ai / bi) + ai % bi,
                    0 <= ai % bi < bi,
                    bi > 0,
            ;
        }
        0 - (c as i128)
    }
}

/// The seconds of parsed parts, computed without overflow, and whether
/// every step fits in an `i64`.
fn civil_secs_exec(p: (i64, i64, i64, i64, i64, i64)) -> (r: (i128, bool))
    ensures
        r.0 == civil_secs((p.0 as int, p.1 as int, p.2 as int, p.3 as int, p.4 as int, p.5 as int)),
        r.1 == steps_fit((p.0 as int, p.1 as int, p.2 as int, p.3 as int, p.4 as int, p.5 as int)),
{
    let (y, m, d, hh, mm, ss) = p;
    let y = y as i128;
    let m = m as i128;
    let d = d as i128;
    let hh = hh as i128;
    let mm = mm as i128;
    let ss = ss as i128;
    let m_adj = if m <= 2 { m + 12 } else { m };
    let y_adj = if m <= 2 { y - 1 } else { y };
    let era = floor_div_exec(y_adj, 400);
    let yoe = y_adj - era * 400;
    proof {
        vstd::arithmetic::div_mod::lemma_fundamental_div_mod(y_adj as int, 400);
        vstd::arithmetic::div_mod::lemma_mod_bound(y_adj as int, 400);
        assert(0 <= yoe < 400);
    }
    let a = 153 * (m_adj - 3);
    let c = tdiv_exec(a + 2, 5) + d;
    let doy = c - 1;
    let doe = yoe * 365 + yoe / 4 - yoe / 100 + doy;
    let e146 = era * 146097;
    let days = e146 + doe - 719468;
    let secs = days * 86400 + hh * 3600 + mm * 60 + ss;
    let ok = fits(m_adj) && fits(y_adj) && fits(a) && fits(a + 2) && fits(c) && fits(doy) && fits(doe)
        && fits(e146) && fits(e146 + doe) && fits(days) && fits(days * 86400) && fits(hh * 3600)
        && fits(mm * 60) && fits(days * 86400 + hh * 3600) && fits(days * 86400 + hh * 3600 + mm * 60)
        && fits(secs);
    (secs, ok)
}

/// Whether the conversion of a timestamp text that parses would overflow
/// an `i64` on the way.
pub fn iso_overflows(s: &str) -> (r: bool)
    ensures
        r == iso_overflows_spec(s@),
{
    match iso_parts(s) {
        Some(p) => !civil_secs_exec(p).1,
        None => false,
    }
}

/// Seconds since the Unix epoch of an ISO-8601 timestamp such as
/// `2024-01-02T03:04:05.678Z`; `None` when the text does not parse.
pub fn parse_iso_secs(s: &str) -> (r: Option<i64>)
    requires
        !iso_overflows_spec(s@),
    ensures
        match r {
            Some(v) => spec_parse_iso_secs(s@) == Some(v as int),
            None => spec_parse_iso_secs(s@) is None,
        },
{
    match iso_parts(s) {
        Some(p) => {
            let (secs, _ok) = civil_secs_exec(p);
            Some(secs as i64)
        },
        None => None,
    }
}


/// The remainder of division rounding toward zero, as `%` on Rust
/// integers.
pub open spec fn trem(a: int, b: int) -> int {
    a - tdiv(a, b) * b
}

/// The civil date and time of a count of seconds since the epoch, by
/// civil-from-days: `(year, month, day, hour, minute, second)`.
pub open spec fn civil_of(secs: int) -> (int, int, int, int, int, int) {
    let z = secs + 719468 * 86400;
    let days = z / 86400;
    let sod = z % 86400;
    let hh = tdiv(sod, 3600);
    let mm = trem(tdiv(sod, 60), 60);
    let ss = trem(sod, 60);
    let era = days / 146097;
    let doe = days - era * 146097;
    let yoe = tdiv(doe - tdiv(doe, 1460) + tdiv(doe, 36524) - tdiv(doe, 146096), 365);
    let y_adj = yoe + era * 400;
    let doy = doe - (365 * yoe + tdiv(yoe, 4) - tdiv(yoe, 100));
    let mp = tdiv(5 * doy + 2, 153);
    let d = doy - tdiv(153 * mp + 2, 5) + 1;
    let m = if mp < 10 { mp + 3 } else { mp - 9 };
    let y = if m <= 2 { y_adj + 1 } else { y_adj };
    (y, m, d, hh, mm, ss)
}

/// The decimal digits of `n`.
pub open spec fn spec_dec(n: nat) -> Seq<char>
    decreases n,
{
    if n < 10 {
        seq![('0' as int + n) as char]
    } else {
        spec_dec(n / 10) + seq![('0' as int + (n % 10)) as char]
    }
}

/// `s` with zeros in front up to width `w`.
pub open spec fn zero_pad(s: Seq<char>, w: int) -> Seq<char> {
    if s.len() >= w {
        s
    } else {
        Seq::new((w - s.len()) as nat, |i: int| '0') + s
    }
}

/// `n` as `{:0w}` prints it: zeros after the sign, up to width `w`.
pub open spec fn fmt_int(n: int, w: int) -> Seq<char> {
    if n >= 0 {
        zero_pad(spec_dec(n as nat), w)
    } else {
        seq!['-'] + zero_pad(spec_dec((-n) as nat), w - 1)
    }
}

/// The timestamp text of a count of seconds since the epoch.
pub open spec fn spec_iso_text(secs: int) -> Seq<char> {
    let (y, m, d, hh, mm, ss) = civil_of(secs);
    fmt_int(y, 4) + "-"@ + fmt_int(m, 2) + "-"@ + fmt_int(d, 2) + "T"@ + fmt_int(hh, 2) + ":"@
        + fmt_int(mm, 2) + ":"@ + fmt_int(ss, 2) + "Z"@
}

pub(crate) fn dec_chars(n: u128) -> (r: Vec<char>)
    ensures
        r@ == spec_dec(n as nat),
{
    let mut digits: Vec<char> = Vec::new();
    let mut m = n;
    proof {
        assert(digits@.reverse() =~= Seq::<char>::empty());
        assert(spec_dec(n as nat) =~= spec_dec(m as nat) + digits@.reverse());
    }
    while m >= 10
        invariant
            spec_dec(n as nat) == spec_dec(m as nat) + digits@.reverse(),
        decreases m,
    {
        let c = ((m % 10) as u8 + 48u8) as char;
        let ghost old_digits = digits@;
        digits.push(c);
        proof {
            assert(digits@.reverse() =~= seq![c] + old_digits.reverse());
            assert(spec_dec(n as nat) =~= spec_dec((m / 10) as nat) + digits@.reverse());
        }
        m = m / 10;
    }
    let mut out: Vec<char> = Vec::new();
    out.push(((m as u8) + 48u8) as char);
    let mut k: usize = digits.len();
    while k > 0
        invariant
            k <= digits@.len(),
            out@ + digits@.take(k as int).reverse() == spec_dec(n as nat),
        decreases k,
    {
        let ghost before = out@;
        out.push(digits[k - 1]);
        proof {
            assert(digits@.take(k as int).reverse() =~= seq![digits@[k - 1]] + digits@.take(k - 1).reverse());
            assert(out@ + digits@.take(k - 1).reverse() =~= before + digits@.take(k as int).reverse());
        }
        k = k - 1;
    }
    proof {
        assert(digits@.take(0).reverse() =~= Seq::<char>::empty());
        assert(out@ =~= out@ + Seq::<char>::empty());
    }
    out
}

pub(crate) fn fmt_int_exec(n: i128, w: usize, out: &mut Vec<char>)
    requires
        1 <= w <= 16,
        -0x1_0000_0000_0000_0000_0000_0000_0000 < n < 0x1_0000_0000_0000_0000_0000_0000_0000,
    ensures
        final(out)@ == old(out)@ + fmt_int(n as int, w as int),
{
    let (neg, mag) = if n >= 0 { (false, n as u128) } else { (true, (0 - n) as u128) };
    let ds = dec_chars(mag);
    let width: usize = if neg { w - 1 } else { w };
    if neg {
        out.push('-');
    }
    let ghost before = out@;
    let mut k: usize = ds.len();
    while k < width
        invariant
            ds.len() <= k <= width || (k == ds.len() && ds.len() >= width),
            out@ == before + Seq::new((k - ds.len()) as nat, |i: int| '0'),
        decreases width - k,
    {
        out.push('0');
        proof {
            assert(out@ =~= before + Seq::new((k + 1 - ds.len()) as nat, |i: int| '0'));
        }
        k = k + 1;
    }
    let ghost mid = out@;
    crate::text::append_from(out, &ds, 0);
    proof {
        assert(ds@.skip(0) =~= ds@);
        let z = zero_pad(ds@, width as int);
        if ds@.len() >= width {
            assert(out@ =~= before + z);
        } else {
            assert(out@ =~= before + z);
        }
        if neg {
            assert(out@ =~= old(out)@ + fmt_int(n as int, w as int));
        } else {
            assert(out@ =~= old(out)@ + fmt_int(n as int, w as int));
        }
    }
}

fn push_lit(out: &mut Vec<char>, c: char)
    ensures
        final(out)@ == old(out)@.push(c),
{
    out.push(c);
}

/// The civil date and time of `secs`, computed without overflow.
fn civil_exec(secs: i64) -> (r: (i128, i128, i128, i128, i128, i128))
    requires
        secs <= i64::MAX - 719468 * 86400,
    ensures
        (r.0 as int, r.1 as int, r.2 as int, r.3 as int, r.4 as int, r.5 as int) == civil_of(secs as int),
        -0x1_0000_0000_0000_0000 < r.0 < 0x1_0000_0000_0000_0000,
        0 <= r.1 < 100 && 0 <= r.2 < 1000 && 0 <= r.3 < 100 && 0 <= r.4 < 100 && 0 <= r.5 < 100,
{
    let z: i128 = secs as i128 + 719468 * 86400;
    let days = floor_div_exec(z, 86400);
    let sod = z - days * 86400;
    proof {
        vstd::arithmetic::div_mod::lemma_fundamental_div_mod(z as int, 86400);
        vstd::arithmetic::div_mod::lemma_mod_bound(z as int, 86400);
        assert(sod as int == (z as int) % 86400);
    }
    let hh = tdiv_exec(sod, 3600);
    let sm = tdiv_exec(sod, 60);
    let mm = sm - tdiv_exec(sm, 60) * 60;
    let ss = sod - tdiv_exec(sod, 60) * 60;
    let era = floor_div_exec(days, 146097);
    let doe = days - era * 146097;
    proof {
        vstd::arithmetic::div_mod::lemma_fundamental_div_mod(days as int, 146097);
        vstd::arithmetic::div_mod::lemma_mod_bound(days as int, 146097);
    }
    let yoe = tdiv_exec(doe - tdiv_exec(doe, 1460) + tdiv_exec(doe, 36524) - tdiv_exec(doe, 146096), 365);
    let y_adj = yoe + era * 400;
    let doy = doe - (365 * yoe + tdiv_exec(yoe, 4) - tdiv_exec(yoe, 100));
    let mp = tdiv_exec(5 * doy + 2, 153);
    let d = doy - tdiv_exec(153 * mp + 2, 5) + 1;
    let m = if mp < 10 { mp + 3 } else { mp - 9 };
    let y = if m <= 2 { y_adj + 1 } else { y_adj };
    (y, m, d, hh, mm, ss)
}

/// The ISO-8601 text of a count of seconds since the Unix epoch, such as
/// `2024-01-02T03:04:05Z`.
pub fn iso_from_secs(secs: i64) -> (r: String)
    requires
        secs <= i64::MAX - 719468 * 86400,
    ensures
        r@ == spec_iso_text(secs as int),
        -719528 * 86400 <= secs < 253402300800 ==> !iso_overflows_spec(r@) && spec_parse_iso_secs(r@)
            == Some(secs as int),
{
    proof {
        if -719528 * 86400 <= secs < 253402300800 {
            law_iso_text_never_overflows(secs as int);
        }
    }
    let (y, m, d, hh, mm, ss) = civil_exec(secs);
    let mut out: Vec<char> = Vec::new();
    fmt_int_exec(y, 4, &mut out);
    push_lit(&mut out, '-');
    fmt_int_exec(m, 2, &mut out);
    push_lit(&mut out, '-');
    fmt_int_exec(d, 2, &mut out);
    push_lit(&mut out, 'T');
    fmt_int_exec(hh, 2, &mut out);
    push_lit(&mut out, ':');
    fmt_int_exec(mm, 2, &mut out);
    push_lit(&mut out, ':');
    fmt_int_exec(ss, 2, &mut out);
    push_lit(&mut out, 'Z');
    proof {
        reveal_strlit("-");
        reveal_strlit("T");
        reveal_strlit(":");
        reveal_strlit("Z");
        assert(out@ =~= spec_iso_text(secs as int));
    }
    string_of(out.as_slice())
}

/// The year of an era's day, and the day within that year, as
/// civil-from-days computes them, stay within a 400-year era and a
/// 366-day year.
proof fn lemma_year_of_era(doe: int)
    requires
        0 <= doe < 146097,
    ensures
        0 <= (doe - doe / 1460 + doe / 36524 - doe / 146096) / 365 <= 399,
        ({
            let yoe = (doe - doe / 1460 + doe / 36524 - doe / 146096) / 365;
            let doy = doe - (365 * yoe + yoe / 4 - yoe / 100);
            0 <= doy <= 365
        }),
{
}

/// The clock of a second of the day.
proof fn lemma_clock(sod: int)
    requires
        0 <= sod < 86400,
    ensures
        0 <= tdiv(sod, 3600) < 24,
        0 <= trem(tdiv(sod, 60), 60) < 60,
        0 <= trem(sod, 60) < 60,
        tdiv(sod, 3600) * 3600 + trem(tdiv(sod, 60), 60) * 60 + trem(sod, 60) == sod,
{
    let q = sod / 60;
    assert(sod == q * 60 + sod % 60);
    assert(q == (q / 60) * 60 + q % 60);
    assert(sod / 3600 == q / 60);
}

/// Month and day of a day of the March-based year.
proof fn lemma_month_day(doy: int)
    requires
        0 <= doy <= 365,
    ensures
        ({
            let mp = tdiv(5 * doy + 2, 153);
            let d = doy - tdiv(153 * mp + 2, 5) + 1;
            &&& 0 <= mp <= 11
            &&& 1 <= d <= 31
            &&& tdiv(153 * mp + 2, 5) + d - 1 == doy
        }),
{
    let mp = (5 * doy + 2) / 153;
    assert(0 <= mp <= 11);
    assert(153 * mp <= 5 * doy + 2 < 153 * mp + 153);
    let t = (153 * mp + 2) / 5;
    assert(5 * t <= 153 * mp + 2 < 5 * t + 5);
}

/// Formatting a count of seconds and reading the date back gives the same
/// count, from the start of year 0 on.
proof fn lemma_civil_roundtrip(secs: int)
    requires
        secs >= -719528 * 86400,
    ensures
        civil_secs(civil_of(secs)) == secs,
        civil_of(secs).0 >= 0,
        1 <= civil_of(secs).1 <= 12,
        1 <= civil_of(secs).2 <= 31,
        0 <= civil_of(secs).3 < 24,
        0 <= civil_of(secs).4 < 60,
        0 <= civil_of(secs).5 < 60,
{
    let z = secs + 719468 * 86400;
    let days = z / 86400;
    let sod = z % 86400;
    assert(z == days * 86400 + sod && 0 <= sod < 86400 && days >= -60);
    lemma_clock(sod);
    let era = days / 146097;
    let doe = days - era * 146097;
    assert(0 <= doe < 146097 && era >= -1);
    assert(era == -1 ==> doe >= 146037);
    lemma_year_of_era(doe);
    let yoe = tdiv(doe - tdiv(doe, 1460) + tdiv(doe, 36524) - tdiv(doe, 146096), 365);
    assert(yoe == (doe - doe / 1460 + doe / 36524 - doe / 146096) / 365);
    let y_adj = yoe + era * 400;
    let doy = doe - (365 * yoe + tdiv(yoe, 4) - tdiv(yoe, 100));
    assert(0 <= doy <= 365);
    lemma_month_day(doy);
    let mp = tdiv(5 * doy + 2, 153);
    let d = doy - tdiv(153 * mp + 2, 5) + 1;
    let m = if mp < 10 { mp + 3 } else { mp - 9 };
    let y = if m <= 2 { y_adj + 1 } else { y_adj };
    let p = civil_of(secs);
    assert(p == (y, m, d, tdiv(sod, 3600), trem(tdiv(sod, 60), 60), trem(sod, 60)));
    let m_adj = if m <= 2 { m + 12 } else { m };
    let y2 = if m <= 2 { y - 1 } else { y };
    assert(m_adj == mp + 3 && y2 == y_adj);
    assert(y_adj / 400 == era);
    assert(y_adj - era * 400 == yoe);
    assert(tdiv(153 * (m_adj - 3) + 2, 5) + d - 1 == doy);
    assert(yoe * 365 + yoe / 4 - yoe / 100 + doy == doe);
    assert(civil_secs(p) == (era * 146097 + doe - 719468) * 86400 + sod);
}

/// The decimal digits of `n` spell `n`.
proof fn lemma_dec(n: nat)
    ensures
        spec_dec(n).len() >= 1,
        all_digits(spec_dec(n)),
        digits_val(spec_dec(n)) == n,
    decreases n,
{
    let s0 = spec_dec(n);
    if n < 10 {
        assert(s0.drop_last() =~= Seq::<char>::empty());
        assert(crate::num::digit_of(s0.last()) == n);
        assert(digits_val(s0.drop_last()) == 0);
        assert(digits_val(s0) == digits_val(s0.drop_last()) * 10 + crate::num::digit_of(s0.last()));
        assert(is_digit(s0[0]));
    } else {
        lemma_dec(n / 10);
        let s = spec_dec(n);
        let p = spec_dec(n / 10);
        assert(s.drop_last() =~= p);
        assert(s.last() == ('0' as int + (n % 10)) as char);
        assert(crate::num::digit_of(s.last()) == n % 10);
        assert(n == (n / 10) * 10 + n % 10);
        assert(digits_val(s) == digits_val(p) * 10 + crate::num::digit_of(s.last()));
        assert forall|i: int| 0 <= i < s.len() implies is_digit(#[trigger] s[i]) by {
            if i < p.len() {
                assert(s[i] == p[i]);
            }
        }
    }
}

/// Leading zeros do not change the number digits spell.
proof fn lemma_leading_zeros(k: nat, s: Seq<char>)
    ensures
        digits_val(Seq::new(k, |i: int| '0') + s) == digits_val(s),
    decreases s.len(), k,
{
    let z = Seq::new(k, |i: int| '0');
    if s.len() == 0 {
        assert(z + s =~= z);
        if k > 0 {
            lemma_leading_zeros((k - 1) as nat, s);
            let z1 = Seq::new((k - 1) as nat, |i: int| '0');
            assert(z.drop_last() =~= z1 + s);
        }
    } else {
        lemma_leading_zeros(k, s.drop_last());
        assert((z + s).drop_last() =~= z + s.drop_last());
    }
}

/// A number of at least zero printed with zeros in front up to width `w`
/// is a non-empty run of digits that spells it.
proof fn lemma_fmt_digits(n: int, w: int)
    requires
        n >= 0,
    ensures
        fmt_int(n, w).len() >= 1,
        all_digits(fmt_int(n, w)),
        digits_val(fmt_int(n, w)) == n,
{
    let d = spec_dec(n as nat);
    lemma_dec(n as nat);
    if d.len() < w {
        let z = Seq::new((w - d.len()) as nat, |i: int| '0');
        lemma_leading_zeros((w - d.len()) as nat, d);
        let f = z + d;
        assert forall|i: int| 0 <= i < f.len() implies is_digit(#[trigger] f[i]) by {
            if i >= z.len() {
                assert(f[i] == d[i - z.len()]);
            }
        }
    }
}

/// A run of digits holds none of the separators of a timestamp.
pub open spec fn no_char(s: Seq<char>, c: char) -> bool {
    forall|i: int| 0 <= i < s.len() ==> s[i] != c
}

/// Splitting `x`, `sep`, `y` on `sep` where `x` holds no `sep` gives `x`,
/// then the pieces of `y`.
proof fn lemma_split_first(x: Seq<char>, y: Seq<char>, sep: char)
    requires
        no_char(x, sep),
    ensures
        split_on(x + seq![sep] + y, sep) == seq![x] + split_on(y, sep),
{
    let s = x + seq![sep] + y;
    assert forall|j: int| 0 <= j < x.len() implies s[j] != sep by {
        assert(s[j] == x[j]);
    }
    first_index_found(s, sep, x.len() as int);
    assert(s.take(x.len() as int) =~= x);
    assert(s.skip(x.len() as int + 1) =~= y);
}

proof fn lemma_split_none(x: Seq<char>, sep: char)
    requires
        no_char(x, sep),
    ensures
        split_on(x, sep) == seq![x],
{
    first_index_found(x, sep, x.len() as int);
}

proof fn lemma_digits_no_char(s: Seq<char>, c: char)
    requires
        all_digits(s),
        !is_digit(c),
    ensures
        no_char(s, c),
{
    assert forall|i: int| 0 <= i < s.len() implies s[i] != c by {
        assert(is_digit(s[i]));
    }
}

/// A non-empty run of digits spelling a number of at most `i64::MAX`
/// parses as that number.
proof fn lemma_parse_digits(s: Seq<char>)
    requires
        s.len() >= 1,
        all_digits(s),
        digits_val(s) <= i64::MAX,
    ensures
        spec_parse_i64(s) == Some(digits_val(s)),
{
    assert(is_digit(s[0]));
    crate::num::lemma_digits_val_bound(s);
}

/// Three runs of digits joined by `sep` split back into the three.
proof fn lemma_three_parts(a: Seq<char>, b: Seq<char>, c: Seq<char>, sep: char)
    requires
        all_digits(a),
        all_digits(b),
        all_digits(c),
        !is_digit(sep),
    ensures
        split_on(a + seq![sep] + b + seq![sep] + c, sep) == seq![a, b, c],
        forall|x: char|
            !is_digit(x) && x != sep ==> no_char(#[trigger] no_char_witness(a + seq![sep] + b + seq![sep] + c, x), x),
{
    lemma_digits_no_char(a, sep);
    lemma_digits_no_char(b, sep);
    lemma_digits_no_char(c, sep);
    lemma_split_first(a, b + seq![sep] + c, sep);
    lemma_split_first(b, c, sep);
    lemma_split_none(c, sep);
    let w = a + seq![sep] + b + seq![sep] + c;
    assert(a + seq![sep] + (b + seq![sep] + c) =~= w);
    assert(split_on(w, sep) =~= seq![a, b, c]);
    assert forall|x: char| !is_digit(x) && x != sep implies no_char(#[trigger] no_char_witness(w, x), x) by {
        assert forall|i: int| 0 <= i < w.len() implies w[i] != x by {
            if i < a.len() {
                assert(w[i] == a[i]);
                assert(is_digit(a[i]));
            } else if i == a.len() {
            } else if i < a.len() + 1 + b.len() {
                assert(w[i] == b[i - a.len() - 1]);
                assert(is_digit(b[i - a.len() - 1]));
            } else if i == a.len() + 1 + b.len() {
            } else {
                assert(w[i] == c[i - a.len() - 2 - b.len()]);
                assert(is_digit(c[i - a.len() - 2 - b.len()]));
            }
        }
    }
}

/// The text itself, named so that a quantifier can mention it.
pub open spec fn no_char_witness(s: Seq<char>, x: char) -> Seq<char> {
    s
}

/// A timestamp text made of runs of digits reads back as the numbers
/// they spell.
proof fn lemma_parts_of_text(
    a: Seq<char>,
    b: Seq<char>,
    c: Seq<char>,
    h: Seq<char>,
    mi: Seq<char>,
    se: Seq<char>,
)
    requires
        all_digits(a) && all_digits(b) && all_digits(c),
        all_digits(h) && all_digits(mi) && all_digits(se),
        se.len() >= 1,
    ensures
        ({
            let u = a + seq!['-'] + b + seq!['-'] + c + seq!['T'] + h + seq![':'] + mi + seq![':'] + se;
            let date = a + seq!['-'] + b + seq!['-'] + c;
            let rest = h + seq![':'] + mi + seq![':'] + se;
            &&& trim_z(u + seq!['Z']) == u
            &&& first_index(u, 'T') == date.len()
            &&& u.take(date.len() as int) == date
            &&& u.skip(date.len() as int + 1) == rest
            &&& split_on(date, '-') == seq![a, b, c]
            &&& split_on(split_on(rest, '.')[0], ':') == seq![h, mi, se]
        }),
{
    let u = a + seq!['-'] + b + seq!['-'] + c + seq!['T'] + h + seq![':'] + mi + seq![':'] + se;
    let date = a + seq!['-'] + b + seq!['-'] + c;
    let rest = h + seq![':'] + mi + seq![':'] + se;
    let text = u + seq!['Z'];
    assert(text.drop_last() =~= u);
    assert(u.last() == se.last());
    assert(is_digit(se[se.len() - 1]));
    assert(trim_z(u) == u);
    lemma_three_parts(a, b, c, '-');
    lemma_three_parts(h, mi, se, ':');
    assert(no_char(no_char_witness(date, 'T'), 'T'));
    assert(no_char(no_char_witness(rest, '.'), '.'));
    assert(u =~= date + seq!['T'] + rest);
    assert forall|j: int| 0 <= j < date.len() implies u[j] != 'T' by {
        assert(u[j] == date[j]);
    }
    first_index_found(u, 'T', date.len() as int);
    assert(u.take(date.len() as int) =~= date);
    assert(u.skip(date.len() as int + 1) =~= rest);
    lemma_split_none(rest, '.');
}

/// The timestamp text of a count of seconds reads back as the same count,
/// for every instant from the start of year 0 on: the text is the reverse
/// of the parse.
pub proof fn law_iso_text_parses_back(secs: int)
    requires
        -719528 * 86400 <= secs <= i64::MAX - 719468 * 86400,
    ensures
        spec_parse_iso_secs(spec_iso_text(secs)) == Some(secs),
        spec_iso_parts(spec_iso_text(secs)) == Some(civil_of(secs)),
{
    lemma_civil_roundtrip(secs);
    let (y, m, d, hh, mm, ss) = civil_of(secs);
    let z = secs + 719468 * 86400;
    let days = z / 86400;
    let era = days / 146097;
    let doe = days - era * 146097;
    lemma_year_of_era(doe);
    assert(y <= days + 400);
    let a = fmt_int(y, 4);
    let b = fmt_int(m, 2);
    let c = fmt_int(d, 2);
    let h = fmt_int(hh, 2);
    let mi = fmt_int(mm, 2);
    let se = fmt_int(ss, 2);
    lemma_fmt_digits(y, 4);
    lemma_fmt_digits(m, 2);
    lemma_fmt_digits(d, 2);
    lemma_fmt_digits(hh, 2);
    lemma_fmt_digits(mm, 2);
    lemma_fmt_digits(ss, 2);
    reveal_strlit("-");
    reveal_strlit("T");
    reveal_strlit(":");
    reveal_strlit("Z");
    let u = a + seq!['-'] + b + seq!['-'] + c + seq!['T'] + h + seq![':'] + mi + seq![':'] + se;
    assert(spec_iso_text(secs) =~= u + seq!['Z']);
    lemma_parts_of_text(a, b, c, h, mi, se);
    lemma_parse_digits(a);
    lemma_parse_digits(b);
    lemma_parse_digits(c);
    lemma_parse_digits(h);
    lemma_parse_digits(mi);
    lemma_parse_digits(se);
}

/// The timestamp text of an instant from the start of year 0 up to the
/// end of year 9999 parses without overflow: the parser's precondition
/// holds on it, and it reads back as the same instant.
pub proof fn law_iso_text_never_overflows(secs: int)
    requires
        -719528 * 86400 <= secs < 253402300800,
    ensures
        !iso_overflows_spec(spec_iso_text(secs)),
        spec_parse_iso_secs(spec_iso_text(secs)) == Some(secs),
{
    law_iso_text_parses_back(secs);
    lemma_civil_roundtrip(secs);
    let p = civil_of(secs);
    let z = secs + 719468 * 86400;
    let days = z / 86400;
    let era = days / 146097;
    let doe = days - era * 146097;
    lemma_year_of_era(doe);
    assert(p.0 <= days + 400);
    assert(days < 3652426);
    let (y, m, d, hh, mm, ss) = p;
    assert(0 <= y <= 4000000);
    assert(steps_fit(p));
}

} // verus!
