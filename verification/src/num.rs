//! Decimal numbers as JSON prints them, compared exactly.
//!
//! A quantity is carried as an integer count of billionths ("nano units"),
//! so `7.5` becomes `7_500_000_000`. Any plain or exponent form JSON prints
//! is taken (up to 36 mantissa digits and a four-digit exponent); a value
//! finer than a billionth is rounded up to the next one, and magnitudes
//! beyond 10^20 are held at that bound, which no quantity reaches.

use vstd::prelude::*;
use crate::text::chars_of;
use crate::json::{Json, JsonV};

verus! {

pub open spec fn is_digit(c: char) -> bool {
    '0' <= c && c <= '9'
}

pub open spec fn digit_of(c: char) -> int {
    c as int - '0' as int
}

pub open spec fn all_digits(s: Seq<char>) -> bool {
    forall|i: int| 0 <= i < s.len() ==> is_digit(#[trigger] s[i])
}

/// The number that the decimal digits `s` spell.
pub open spec fn digits_val(s: Seq<char>) -> int
    decreases s.len(),
{
    if s.len() == 0 {
        0
    } else {
        digits_val(s.drop_last()) * 10 + digit_of(s.last())
    }
}

pub open spec fn pow10(n: nat) -> int
    decreases n,
{
    if n == 0 {
        1
    } else {
        10 * pow10((n - 1) as nat)
    }
}

/// Index of the first `c` in `s`, or -1.
pub open spec fn first_index(s: Seq<char>, c: char) -> int
    decreases s.len(),
{
    if s.len() == 0 {
        -1
    } else if s[0] == c {
        0
    } else {
        let r = first_index(s.drop_first(), c);
        if r < 0 {
            -1
        } else {
            r + 1
        }
    }
}

/// The largest magnitude a quantity is held at, in billionths.
pub open spec fn nano_cap() -> int {
    100000000000000000000000000000
}

/// Index of the first exponent mark (`e` or `E`) in `s`, or -1.
pub open spec fn exp_index(s: Seq<char>) -> int
    decreases s.len(),
{
    if s.len() == 0 {
        -1
    } else if s[0] == 'e' || s[0] == 'E' {
        0
    } else {
        let r = exp_index(s.drop_first());
        if r < 0 {
            -1
        } else {
            r + 1
        }
    }
}

/// A mantissa `D+` or `D+.D+` of at most 36 digits: the number its digits
/// spell and how many of them follow the point.
pub open spec fn mantissa(u: Seq<char>) -> Option<(int, int)> {
    let d = first_index(u, '.');
    if d < 0 {
        if u.len() > 0 && u.len() <= 36 && all_digits(u) {
            Some((digits_val(u), 0))
        } else {
            None
        }
    } else {
        let a = u.take(d);
        let b = u.skip(d + 1);
        if a.len() > 0 && b.len() > 0 && a.len() + b.len() <= 36 && all_digits(a) && all_digits(b) {
            Some((digits_val(a + b), b.len() as int))
        } else {
            None
        }
    }
}

/// An exponent: an optional sign, then one to four digits.
pub open spec fn exponent(x: Seq<char>) -> Option<int> {
    if x.len() > 0 && (x[0] == '+' || x[0] == '-') {
        let d = x.drop_first();
        if d.len() > 0 && d.len() <= 4 && all_digits(d) {
            Some(if x[0] == '-' { -digits_val(d) } else { digits_val(d) })
        } else {
            None
        }
    } else if x.len() > 0 && x.len() <= 4 && all_digits(x) {
        Some(digits_val(x))
    } else {
        None
    }
}

/// An unsigned decimal as `(n, k)`: its value is `n * 10^k` billionths.
pub open spec fn unsigned_parts(u: Seq<char>) -> Option<(int, int)> {
    let e = exp_index(u);
    if e < 0 {
        match mantissa(u) {
            Some((n, f)) => Some((n, 9 - f)),
            None => None,
        }
    } else {
        match (mantissa(u.take(e)), exponent(u.skip(e + 1))) {
            (Some((n, f)), Some(x)) => Some((n, x - f + 9)),
            _ => None,
        }
    }
}

pub open spec fn cap(q: int) -> int {
    if q > nano_cap() {
        nano_cap()
    } else {
        q
    }
}

/// `n * 10^k` rounded up to a whole number, held at the cap.
pub open spec fn scale_up(n: int, k: int) -> int {
    if k >= 0 {
        cap(n * pow10(k as nat))
    } else {
        let d = pow10((-k) as nat);
        cap(if n % d == 0 { n / d } else { n / d + 1 })
    }
}

/// `n * 10^k` rounded down to a whole number, held at the cap.
pub open spec fn scale_down(n: int, k: int) -> int {
    if k >= 0 {
        cap(n * pow10(k as nat))
    } else {
        cap(n / pow10((-k) as nat))
    }
}

/// The value of a decimal text in billionths, rounded up to a whole
/// billionth, when it is one.
pub open spec fn decimal_nano(t: Seq<char>) -> Option<int> {
    if t.len() > 0 && t[0] == '-' {
        match unsigned_parts(t.drop_first()) {
            Some((n, k)) => Some(-scale_down(n, k)),
            None => None,
        }
    } else {
        match unsigned_parts(t) {
            Some((n, k)) => Some(scale_up(n, k)),
            None => None,
        }
    }
}

/// The value of a text of decimal digits only, when it fits in a `u64`.
pub open spec fn u64_text(t: Seq<char>) -> Option<u64> {
    if t.len() > 0 && all_digits(t) && digits_val(t) <= u64::MAX {
        Some(digits_val(t) as u64)
    } else {
        None
    }
}

pub proof fn lemma_pow10_pos(n: nat)
    ensures
        pow10(n) >= 1,
    decreases n,
{
    if n > 0 {
        lemma_pow10_pos((n - 1) as nat);
    }
}

pub proof fn lemma_digits_val_bound(s: Seq<char>)
    requires
        all_digits(s),
    ensures
        0 <= digits_val(s) < pow10(s.len()),
    decreases s.len(),
{
    if s.len() > 0 {
        let p = s.drop_last();
        assert(all_digits(p)) by {
            assert forall|i: int| 0 <= i < p.len() implies is_digit(#[trigger] p[i]) by {
                assert(p[i] == s[i]);
            }
        }
        lemma_digits_val_bound(p);
        assert(is_digit(s[s.len() - 1]));
    }
}

pub proof fn lemma_first_index(s: Seq<char>, c: char)
    ensures
        -1 <= first_index(s, c) < s.len(),
        first_index(s, c) >= 0 ==> s[first_index(s, c)] == c,
        forall|j: int| 0 <= j < s.len() && (first_index(s, c) < 0 || j < first_index(s, c))
            ==> #[trigger] s[j] != c,
    decreases s.len(),
{
    if s.len() > 0 {
        let t = s.drop_first();
        lemma_first_index(t, c);
        assert forall|j: int| 0 <= j < s.len() && (first_index(s, c) < 0 || j < first_index(s, c))
            implies #[trigger] s[j] != c by {
            if j > 0 {
                assert(s[j] == t[j - 1]);
            }
        }
    }
}

proof fn lemma_exp_index(s: Seq<char>)
    ensures
        -1 <= exp_index(s) < s.len(),
        exp_index(s) >= 0 ==> (s[exp_index(s)] == 'e' || s[exp_index(s)] == 'E'),
        forall|j: int| 0 <= j < s.len() && (exp_index(s) < 0 || j < exp_index(s))
            ==> #[trigger] s[j] != 'e' && s[j] != 'E',
    decreases s.len(),
{
    if s.len() > 0 {
        let t = s.drop_first();
        lemma_exp_index(t);
        assert forall|j: int| 0 <= j < s.len() && (exp_index(s) < 0 || j < exp_index(s))
            implies #[trigger] s[j] != 'e' && s[j] != 'E' by {
            if j > 0 {
                assert(s[j] == t[j - 1]);
            }
        }
    }
}

/// The powers of ten that the parser uses.
proof fn lemma_pow10_values()
    ensures
        pow10(9) == 1000000000,
        pow10(29) == 100000000000000000000000000000,
        pow10(30) == 1000000000000000000000000000000,
        pow10(36) == 1000000000000000000000000000000000000,
        pow10(38) == 100000000000000000000000000000000000000,
{
    reveal_with_fuel(pow10, 40);
}

proof fn lemma_pow10_mono(a: nat, b: nat)
    requires
        a <= b,
    ensures
        pow10(a) <= pow10(b),
    decreases b,
{
    if a < b {
        lemma_pow10_mono(a, (b - 1) as nat);
        lemma_pow10_pos((b - 1) as nat);
    }
}

/// `10^k` for `k` up to 38.
fn pow10_u128(k: u32) -> (r: u128)
    requires
        k <= 38,
    ensures
        r == pow10(k as nat),
{
    let mut r: u128 = 1;
    let mut i: u32 = 0;
    while i < k
        invariant
            i <= k <= 38,
            r == pow10(i as nat),
        decreases k - i,
    {
        proof {
            lemma_pow10_values();
            lemma_pow10_mono((i + 1) as nat, 38);
            assert(pow10((i + 1) as nat) == 10 * pow10(i as nat));
        }
        r = r * 10;
        i = i + 1;
    }
    r
}

/// The digits `cs[lo..hi]` appended to the digits `pre` (whose number is
/// `v0`), as a number; none unless all are digits.
fn digits_acc(cs: &Vec<char>, lo: usize, hi: usize, v0: u128, Ghost(pre): Ghost<Seq<char>>) -> (r: Option<u128>)
    requires
        lo <= hi <= cs@.len(),
        v0 == digits_val(pre),
        v0 < pow10(pre.len()),
        pre.len() + (hi - lo) <= 36,
    ensures
        r is Some == all_digits(cs@.subrange(lo as int, hi as int)),
        r is Some ==> r->0 == digits_val(pre + cs@.subrange(lo as int, hi as int)),
        r is Some ==> r->0 < pow10((pre.len() + hi - lo) as nat),
{
    let mut v: u128 = v0;
    let mut i: usize = lo;
    proof {
        assert(pre + cs@.subrange(lo as int, lo as int) =~= pre);
    }
    while i < hi
        invariant
            lo <= i <= hi <= cs@.len(),
            pre.len() + (hi - lo) <= 36,
            all_digits(cs@.subrange(lo as int, i as int)),
            v == digits_val(pre + cs@.subrange(lo as int, i as int)),
            v < pow10((pre.len() + i - lo) as nat),
        decreases hi - i,
    {
        let c = cs[i];
        if !('0' <= c && c <= '9') {
            proof {
                assert(cs@.subrange(lo as int, hi as int)[i - lo] == c);
            }
            return None;
        }
        let ghost p = pre + cs@.subrange(lo as int, i as int);
        let ghost q = pre + cs@.subrange(lo as int, i as int + 1);
        proof {
            assert(q.drop_last() =~= p);
            assert(q.last() == c);
            assert forall|k: int| 0 <= k < i + 1 - lo implies is_digit(#[trigger] cs@.subrange(lo as int, i as int + 1)[k]) by {
                if k < i - lo {
                    assert(cs@.subrange(lo as int, i as int + 1)[k] == cs@.subrange(lo as int, i as int)[k]);
                }
            }
            let m = (pre.len() + i - lo) as nat;
            assert(pow10((m + 1) as nat) == 10 * pow10(m));
            lemma_pow10_values();
            lemma_pow10_mono((m + 1) as nat, 36);
        }
        let d = (c as u32 - '0' as u32) as u128;
        v = v * 10 + d;
        i = i + 1;
    }
    Some(v)
}

/// The mantissa `cs[lo..hi]`: its number and its count of fraction digits.
fn mantissa_in(cs: &Vec<char>, lo: usize, hi: usize) -> (r: Option<(u128, u32)>)
    requires
        lo <= hi <= cs@.len(),
    ensures
        r is Some == mantissa(cs@.subrange(lo as int, hi as int)) is Some,
        r matches Some(x) ==> (x.0 as int, x.1 as int) == mantissa(cs@.subrange(lo as int, hi as int))->0
            && x.0 < pow10(36) && x.1 <= 36,
{
    let ghost u = cs@.subrange(lo as int, hi as int);
    proof {
        lemma_first_index(u, '.');
        lemma_pow10_values();
        lemma_pow10_pos(0);
    }
    let mut d: usize = lo;
    while d < hi && cs[d] != '.'
        invariant
            lo <= d <= hi <= cs@.len(),
            forall|j: int| lo <= j < d ==> #[trigger] cs@[j] != '.',
        decreases hi - d,
    {
        d = d + 1;
    }
    let ghost di = first_index(u, '.');
    proof {
        if d < hi {
            assert(u[d - lo] == '.');
            if di < d - lo {
                assert(cs@[lo + di] == u[di]);
            }
        } else if di >= 0 {
            assert(cs@[lo + di] == u[di]);
        }
    }
    if d == hi {
        if hi - lo == 0 || hi - lo > 36 {
            return None;
        }
        proof {
            assert(Seq::<char>::empty() + u =~= u);
        }
        match digits_acc(cs, lo, hi, 0, Ghost(Seq::empty())) {
            None => None,
            Some(v) => {
                proof {
                    lemma_pow10_mono((hi - lo) as nat, 36);
                }
                Some((v, 0))
            },
        }
    } else {
        let ghost a = cs@.subrange(lo as int, d as int);
        let ghost b = cs@.subrange(d + 1, hi as int);
        proof {
            assert(di == d - lo);
            assert(u.take(di) =~= a);
            assert(u.skip(di + 1) =~= b);
        }
        if d - lo == 0 || hi - (d + 1) == 0 || (d - lo) + (hi - (d + 1)) > 36 {
            return None;
        }
        proof {
            assert(Seq::<char>::empty() + a =~= a);
        }
        let va = match digits_acc(cs, lo, d, 0, Ghost(Seq::empty())) {
            None => {
                return None;
            },
            Some(v) => v,
        };
        let vb = match digits_acc(cs, d + 1, hi, va, Ghost(a)) {
            None => {
                return None;
            },
            Some(v) => v,
        };
        proof {
            lemma_pow10_mono((a.len() + b.len()) as nat, 36);
        }
        Some((vb, (hi - (d + 1)) as u32))
    }
}

/// The exponent `cs[lo..hi]`.
fn exponent_in(cs: &Vec<char>, lo: usize, hi: usize) -> (r: Option<i64>)
    requires
        lo <= hi <= cs@.len(),
    ensures
        r is Some == exponent(cs@.subrange(lo as int, hi as int)) is Some,
        r matches Some(x) ==> x as int == exponent(cs@.subrange(lo as int, hi as int))->0 && -9999 <= x <= 9999,
{
    let ghost x = cs@.subrange(lo as int, hi as int);
    proof {
        lemma_pow10_pos(0);
        reveal_with_fuel(pow10, 5);
    }
    if hi > lo && (cs[lo] == '+' || cs[lo] == '-') {
        let neg = cs[lo] == '-';
        let ghost dd = cs@.subrange(lo + 1, hi as int);
        proof {
            assert(x[0] == cs@[lo as int]);
            assert(x.drop_first() =~= dd);
        }
        if hi - (lo + 1) == 0 || hi - (lo + 1) > 4 {
            return None;
        }
        proof {
            assert(Seq::<char>::empty() + dd =~= dd);
        }
        match digits_acc(cs, lo + 1, hi, 0, Ghost(Seq::empty())) {
            None => None,
            Some(v) => {
                proof {
                    lemma_pow10_mono((hi - (lo + 1)) as nat, 4);
                }
                if neg {
                    Some(-(v as i64))
                } else {
                    Some(v as i64)
                }
            },
        }
    } else {
        proof {
            if hi > lo {
                assert(x[0] == cs@[lo as int]);
            }
        }
        if hi - lo == 0 || hi - lo > 4 {
            return None;
        }
        proof {
            assert(Seq::<char>::empty() + x =~= x);
        }
        match digits_acc(cs, lo, hi, 0, Ghost(Seq::empty())) {
            None => None,
            Some(v) => {
                proof {
                    lemma_pow10_mono((hi - lo) as nat, 4);
                }
                Some(v as i64)
            },
        }
    }
}

/// The unsigned decimal `cs[lo..hi]` as `(n, k)`.
fn unsigned_parts_in(cs: &Vec<char>, lo: usize, hi: usize) -> (r: Option<(u128, i64)>)
    requires
        lo <= hi <= cs@.len(),
    ensures
        r is Some == unsigned_parts(cs@.subrange(lo as int, hi as int)) is Some,
        r matches Some(x) ==> (x.0 as int, x.1 as int) == unsigned_parts(cs@.subrange(lo as int, hi as int))->0
            && x.0 < pow10(36) && -10036 <= x.1 <= 10008,
{
    let ghost u = cs@.subrange(lo as int, hi as int);
    proof {
        lemma_exp_index(u);
    }
    let mut e: usize = lo;
    while e < hi && cs[e] != 'e' && cs[e] != 'E'
        invariant
            lo <= e <= hi <= cs@.len(),
            forall|j: int| lo <= j < e ==> #[trigger] cs@[j] != 'e' && cs@[j] != 'E',
        decreases hi - e,
    {
        e = e + 1;
    }
    let ghost ei = exp_index(u);
    proof {
        if e < hi {
            assert(u[e - lo] == cs@[e as int]);
            if ei < e - lo {
                assert(cs@[lo + ei] == u[ei]);
            }
        } else if ei >= 0 {
            assert(cs@[lo + ei] == u[ei]);
        }
    }
    if e == hi {
        proof {
            assert(ei < 0);
        }
        match mantissa_in(cs, lo, hi) {
            None => None,
            Some((n, f)) => Some((n, 9 - f as i64)),
        }
    } else {
        proof {
            assert(ei == e - lo);
            assert(u.take(ei) =~= cs@.subrange(lo as int, e as int));
            assert(u.skip(ei + 1) =~= cs@.subrange(e + 1, hi as int));
        }
        let m = mantissa_in(cs, lo, e);
        let x = exponent_in(cs, e + 1, hi);
        match (m, x) {
            (Some((n, f)), Some(x)) => Some((n, x - f as i64 + 9)),
            _ => None,
        }
    }
}

/// `n * 10^k` rounded up (or down) to a whole number, held at the cap.
fn scale_exec(n: u128, k: i64, up: bool) -> (r: u128)
    requires
        n < pow10(36),
        -10036 <= k <= 10008,
    ensures
        r as int == (if up { scale_up(n as int, k as int) } else { scale_down(n as int, k as int) }),
        r <= nano_cap(),
{
    proof {
        lemma_pow10_values();
    }
    let c: u128 = 100000000000000000000000000000;
    if k >= 0 {
        let ghost p = pow10(k as nat);
        proof {
            lemma_pow10_pos(k as nat);
        }
        if n == 0 {
            proof {
                assert(0 * p == 0);
            }
            return 0;
        }
        if k >= 30 {
            proof {
                lemma_pow10_mono(30, k as nat);
                assert(n * p >= p) by (nonlinear_arith)
                    requires
                        n >= 1,
                        p >= 0,
                ;
            }
            return c;
        }
        let pe = pow10_u128(k as u32);
        proof {
            lemma_pow10_mono(k as nat, 29);
            vstd::arithmetic::div_mod::lemma_fundamental_div_mod(c as int, pe as int);
        }
        let lim = c / pe;
        if n > lim {
            proof {
                assert(n * pe > c) by (nonlinear_arith)
                    requires
                        n >= lim + 1,
                        c == pe * lim + c % pe,
                        c % pe < pe,
                        pe > 0,
                ;
            }
            c
        } else {
            proof {
                assert(n * pe <= c) by (nonlinear_arith)
                    requires
                        n <= lim,
                        c == pe * lim + c % pe,
                        c % pe >= 0,
                        pe > 0,
                ;
            }
            n * pe
        }
    } else {
        let j = (0 - k) as u64;
        let ghost dd = pow10(j as nat);
        proof {
            lemma_pow10_pos(j as nat);
        }
        if j > 38 {
            proof {
                lemma_pow10_mono(38, j as nat);
                vstd::arithmetic::div_mod::lemma_small_mod(n as nat, dd as nat);
                vstd::arithmetic::div_mod::lemma_fundamental_div_mod(n as int, dd);
                let ni = n as int;
                assert(ni / dd == 0) by (nonlinear_arith)
                    requires
                        ni == dd * (ni / dd) + ni % dd,
                        ni % dd == ni,
                        dd > 0,
                ;
            }
            if up && n > 0 {
                return 1;
            } else {
                return 0;
            }
        }
        let de = pow10_u128(j as u32);
        let q = n / de;
        let m = n % de;
        proof {
            assert(q <= n) by (nonlinear_arith)
                requires
                    de >= 1,
                    q == n / de,
                    n >= 0,
            ;
        }
        let v: u128 = if up && m != 0 { q + 1 } else { q };
        if v > c {
            c
        } else {
            v
        }
    }
}

/// Parse a decimal text into billionths, rounding up to a whole billionth.
pub fn parse_nano(t: &str) -> (r: Option<i128>)
    ensures
        r is Some == decimal_nano(t@) is Some,
        r is Some ==> r->0 == decimal_nano(t@)->0,
        r is Some ==> -nano_cap() <= r->0 <= nano_cap(),
{
    let cs = chars_of(t);
    let n = cs.len();
    let neg = n > 0 && cs[0] == '-';
    let start: usize = if neg { 1 } else { 0 };
    proof {
        if neg {
            assert(t@.drop_first() =~= cs@.subrange(1, n as int));
        } else {
            assert(t@ =~= cs@.subrange(0, n as int));
        }
    }
    match unsigned_parts_in(&cs, start, n) {
        None => None,
        Some((m, k)) => {
            let v = scale_exec(m, k, !neg);
            if neg {
                Some(-(v as i128))
            } else {
                Some(v as i128)
            }
        },
    }
}

/// Parse a text of decimal digits as a `u64`.
pub fn parse_u64(t: &str) -> (r: Option<u64>)
    ensures
        r == u64_text(t@),
{
    let cs = chars_of(t);
    let n = cs.len();
    if n == 0 {
        return None;
    }
    let mut v: u64 = 0;
    let mut i: usize = 0;
    while i < n
        invariant
            i <= n == cs@.len(),
            n > 0,
            cs@ == t@,
            all_digits(cs@.take(i as int)),
            v == digits_val(cs@.take(i as int)),
        decreases n - i,
    {
        let c = cs[i];
        let ghost p = cs@.take(i as int);
        let ghost q = cs@.take(i as int + 1);
        proof {
            assert(q.drop_last() == p);
            assert(q.last() == c);
        }
        if !('0' <= c && c <= '9') {
            proof {
                assert(!all_digits(t@)) by {
                    assert(t@[i as int] == c);
                }
            }
            return None;
        }
        proof {
            assert forall|k: int| 0 <= k < q.len() implies is_digit(#[trigger] q[k]) by {
                if k < p.len() {
                    assert(q[k] == p[k]);
                }
            }
        }
        let d = (c as u32 - '0' as u32) as u64;
        if v > (u64::MAX - d) / 10 {
            proof {
                assert(digits_val(q) > u64::MAX);
                lemma_prefix_val_le(t@, i as int + 1);
            }
            return None;
        }
        v = v * 10 + d;
        i = i + 1;
    }
    proof {
        assert(cs@.take(n as int) == t@);
    }
    Some(v)
}

/// A prefix of a digit string never spells more than the whole.
proof fn lemma_prefix_val_le(s: Seq<char>, k: int)
    requires
        0 <= k <= s.len(),
        all_digits(s.take(k)),
    ensures
        all_digits(s) ==> digits_val(s.take(k)) <= digits_val(s),
    decreases s.len() - k,
{
    if k < s.len() && all_digits(s) {
        let p = s.take(k);
        let q = s.take(k + 1);
        assert(q.drop_last() == p);
        assert(all_digits(q)) by {
            assert forall|j: int| 0 <= j < q.len() implies is_digit(#[trigger] q[j]) by {
                assert(q[j] == s[j]);
            }
        }
        assert(is_digit(s[k]));
        lemma_digits_val_bound(p);
        lemma_prefix_val_le(s, k + 1);
        assert(s.take(s.len() as int) == s);
    }
    if k == s.len() {
        assert(s.take(k) == s);
    }
}


/// A JSON number in billionths, when its text is a plain decimal.
pub open spec fn json_nano(v: JsonV) -> Option<int> {
    match v {
        JsonV::Num(t) => decimal_nano(t),
        _ => None,
    }
}

/// A JSON number as an unsigned integer, when it is one that fits.
pub open spec fn json_u64(v: JsonV) -> Option<u64> {
    match v {
        JsonV::Num(t) => u64_text(t),
        _ => None,
    }
}

/// The value of a decimal number in billionths.
pub fn nano_of(j: &Json) -> (r: Option<i128>)
    ensures
        r is Some == json_nano(j@) is Some,
        r is Some ==> r->0 == json_nano(j@)->0,
        r is Some ==> -1000000000000000000000000000000 < r->0 < 1000000000000000000000000000000,
{
    match j.as_num_text() {
        Some(t) => {
            parse_nano(t)
        },
        None => None,
    }
}

/// The value of a non-negative integer number.
pub fn u64_of(j: &Json) -> (r: Option<u64>)
    ensures
        r == json_u64(j@),
{
    match j.as_num_text() {
        Some(t) => parse_u64(t),
        None => None,
    }
}

/// Where a scan for `c` stopped tells where `c` first stands.
pub proof fn first_index_found(s: Seq<char>, c: char, k: int)
    requires
        0 <= k <= s.len(),
        forall|j: int| 0 <= j < k ==> s[j] != c,
        k < s.len() ==> s[k] == c,
    ensures
        k < s.len() ==> first_index(s, c) == k,
        k == s.len() ==> first_index(s, c) < 0,
    decreases s.len(),
{
    if s.len() > 0 {
        if k > 0 {
            let t = s.drop_first();
            assert forall|j: int| 0 <= j < k - 1 implies t[j] != c by {
                assert(t[j] == s[j + 1]);
            }
            if k < s.len() {
                assert(t[k - 1] == s[k]);
            }
            first_index_found(t, c, k - 1);
        }
    }
}



/// An unsigned decimal as `str::parse::<u64>` reads it: an optional `+`,
/// then digits.
pub open spec fn spec_parse_u64_str(t: Seq<char>) -> Option<u64> {
    let d = if t.len() > 0 && t[0] == '+' {
        t.drop_first()
    } else {
        t
    };
    u64_text(d)
}

pub fn parse_u64_str(t: &str) -> (r: Option<u64>)
    ensures
        r == spec_parse_u64_str(t@),
{
    let cs = chars_of(t);
    if cs.len() > 0 && cs[0] == '+' {
        let mut rest: Vec<char> = Vec::new();
        crate::text::append_from(&mut rest, &cs, 1);
        proof {
            assert(cs@.skip(1) =~= t@.drop_first());
        }
        let s = crate::text::string_of(rest.as_slice());
        parse_u64(s.as_str())
    } else {
        parse_u64(t)
    }
}

} // verus!
