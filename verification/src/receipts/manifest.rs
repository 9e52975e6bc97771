//! A run's receipt: the manifest the machine that ran it recorded.
//!
//! Reading what another machine recorded needs no store, no async and no
//! graph vocabulary: a manifest's address, host, title and timestamp are
//! functions of its fields alone.

use vstd::prelude::*;

use crate::text::{
    push_char, push_str,
    chars_of, first_part, first_part_chars, split_once, split_once_chars, strip_trailing,
    strip_trailing_chars, trim, trim_chars,
};

verus! {

pub open spec fn is_digit(c: char) -> bool {
    '0' <= c && c <= '9'
}

pub open spec fn all_digits(s: Seq<char>) -> bool {
    forall|i: int| 0 <= i < s.len() ==> is_digit(#[trigger] s[i])
}

/// The number the decimal digits `s` spell.
pub open spec fn digits_value(s: Seq<char>) -> nat
    decreases s.len(),
{
    if s.len() == 0 {
        0
    } else {
        digits_value(s.drop_last()) * 10 + ((s.last() as int) - 48) as nat
    }
}

/// `i64::from_str`: an optional sign, then at least one decimal digit, the
/// value within `i64`'s range.
pub open spec fn parse_i64(s: Seq<char>) -> Option<i64> {
    if s.len() == 0 {
        None
    } else if s[0] == '-' {
        let r = s.drop_first();
        if r.len() > 0 && all_digits(r) && digits_value(r) <= 9223372036854775808 {
            Some((-(digits_value(r) as int)) as i64)
        } else {
            None
        }
    } else {
        let r = if s[0] == '+' {
            s.drop_first()
        } else {
            s
        };
        if r.len() > 0 && all_digits(r) && digits_value(r) <= 9223372036854775807 {
            Some(digits_value(r) as i64)
        } else {
            None
        }
    }
}

fn digits_to_u64(v: &Vec<char>, lo: usize) -> (r: Option<u64>)
    requires
        lo <= v@.len(),
    ensures
        match r {
            Some(n) => all_digits(v@.skip(lo as int)) && n == digits_value(v@.skip(lo as int))
                && n <= 9223372036854775808u64,
            None => !(all_digits(v@.skip(lo as int)) && digits_value(v@.skip(lo as int))
                <= 9223372036854775808),
        },
{
    let ghost s = v@.skip(lo as int);
    let mut n: u64 = 0;
    let mut i = lo;
    assert(v@.subrange(lo as int, lo as int) =~= Seq::<char>::empty());
    while i < v.len()
        invariant
            lo <= i <= v@.len(),
            s == v@.skip(lo as int),
            all_digits(v@.subrange(lo as int, i as int)),
            n == digits_value(v@.subrange(lo as int, i as int)),
            n <= 9223372036854775808u64,
        decreases v@.len() - i,
    {
        let c = v[i];
        let ghost pre = v@.subrange(lo as int, i as int);
        let ghost next = v@.subrange(lo as int, i + 1);
        assert(next.drop_last() =~= pre);
        if !('0' <= c && c <= '9') {
            proof {
                assert(s[i - lo] == c);
            }
            return None;
        }
        let d: u64 = (c as u64) - 48;
        if n > 922337203685477580 || (n == 922337203685477580 && d > 8) {
            proof {
                lemma_digits_value_grows(s, (i - lo) as int);
                assert(s.subrange(0, i - lo + 1) =~= next);
            }
            return None;
        }
        n = n * 10 + d;
        proof {
            assert forall|q: int| 0 <= q < next.len() implies is_digit(#[trigger] next[q]) by {
                if q < pre.len() {
                    assert(next[q] == pre[q]);
                }
            }
        }
        i = i + 1;
    }
    assert(v@.subrange(lo as int, v@.len() as int) =~= s);
    Some(n)
}

proof fn lemma_digits_value_prefix(s: Seq<char>, k: int)
    requires
        0 <= k <= s.len(),
        all_digits(s),
    ensures
        digits_value(s.subrange(0, k)) <= digits_value(s),
    decreases s.len() - k,
{
    if k < s.len() {
        lemma_digits_value_prefix(s, k + 1);
        let a = s.subrange(0, k + 1);
        assert(a.drop_last() =~= s.subrange(0, k));
        assert(is_digit(a.last()));
    } else {
        assert(s.subrange(0, k) =~= s);
    }
}

proof fn lemma_digits_value_grows(s: Seq<char>, k: int)
    requires
        0 <= k < s.len(),
    ensures
        all_digits(s) ==> digits_value(s.subrange(0, k + 1)) <= digits_value(s),
{
    if all_digits(s) {
        lemma_digits_value_prefix(s, k + 1);
    }
}

/// Executable form of [`parse_i64`].
pub fn parse_i64_chars(v: &Vec<char>) -> (r: Option<i64>)
    ensures
        r == parse_i64(v@),
{
    if v.len() == 0 {
        return None;
    }
    if v[0] == '-' {
        proof {
            assert(v@.skip(1) =~= v@.drop_first());
        }
        if v.len() == 1 {
            return None;
        }
        match digits_to_u64(v, 1) {
            Some(n) => {
                if n == 9223372036854775808u64 {
                    Some(i64::MIN)
                } else {
                    Some(-(n as i64))
                }
            },
            None => None,
        }
    } else {
        let lo: usize = if v[0] == '+' {
            1
        } else {
            0
        };
        proof {
            assert(v@.skip(1) =~= v@.drop_first());
            assert(v@.skip(0) =~= v@);
        }
        if lo == v.len() {
            return None;
        }
        match digits_to_u64(v, lo) {
            Some(n) => {
                if n <= 9223372036854775807u64 {
                    Some(n as i64)
                } else {
                    None
                }
            },
            None => None,
        }
    }
}

} // verus!

verus! {

/// The three pieces `s` splits into on `c`, when it splits into exactly
/// three.
pub open spec fn three_parts(s: Seq<char>, c: char) -> Option<(Seq<char>, Seq<char>, Seq<char>)> {
    match split_once(s, c) {
        None => None,
        Some(p) => match split_once(p.1, c) {
            None => None,
            Some(q) => if split_once(q.1, c) is None {
                Some((p.0, q.0, q.1))
            } else {
                None
            },
        },
    }
}

/// The numeric fields of a timestamp as the parser reads them, and the text
/// of its fractional seconds.
pub struct StampFields {
    pub year: i64,
    pub month: i64,
    pub day: i64,
    pub hour: i64,
    pub minute: i64,
    pub second: i64,
    pub frac: Seq<char>,
}

/// Read `date T time[Z]`: the date split on `-` into exactly three numbers,
/// the time (without trailing `Z`s) split on `:` into exactly three, the
/// seconds split once on `.` (`"0"` when there is no fraction) with a
/// fraction of decimal digits only. `None` when a piece is missing or extra,
/// a number does not parse, or anything (an offset among it) follows the
/// seconds.
pub open spec fn stamp_fields(text: Seq<char>) -> Option<StampFields> {
    match split_once(trim(text), 'T') {
        None => None,
        Some(halves) => match three_parts(halves.0, '-') {
            None => None,
            Some(d) => match (parse_i64(d.0), parse_i64(d.1), parse_i64(d.2)) {
                (Some(year), Some(month), Some(day)) => {
                    let time = strip_trailing(halves.1, 'Z');
                    match three_parts(time, ':') {
                        None => None,
                        Some(t) => match (parse_i64(t.0), parse_i64(t.1)) {
                            (Some(hour), Some(minute)) => {
                                let sf = match split_once(t.2, '.') {
                                    Some(p) => p,
                                    None => (t.2, seq!['0']),
                                };
                                match parse_i64(sf.0) {
                                    Some(second) => if !all_digits(sf.1) {
                                        None
                                    } else {
                                        Some(
                                        StampFields { year, month, day, hour, minute, second, frac: sf.1 },
                                    )
                                    },
                                    None => None,
                                }
                            },
                            _ => None,
                        },
                    }
                },
                _ => None,
            },
        },
    }
}

/// `format!("{frac:0<3}")`: the fraction padded with zeros to three
/// characters.
pub open spec fn pad3(f: Seq<char>) -> Seq<char> {
    if f.len() >= 3 {
        f
    } else {
        f + Seq::new((3 - f.len()) as nat, |i: int| '0')
    }
}

/// The length of `c` in UTF-8.
pub open spec fn utf8_len(c: char) -> nat {
    if (c as u32) < 0x80 {
        1
    } else if (c as u32) < 0x800 {
        2
    } else if (c as u32) < 0x10000 {
        3
    } else {
        4
    }
}

/// Whether byte three of `p`'s UTF-8 falls between two characters, so that
/// slicing its first three bytes does not panic.
pub open spec fn boundary3(p: Seq<char>) -> bool {
    p.len() >= 3 && (utf8_len(p[0]) == 3 || (utf8_len(p[0]) == 1 && utf8_len(p[1]) == 2) || (
    utf8_len(p[0]) == 2 && utf8_len(p[1]) == 1) || (utf8_len(p[0]) == 1 && utf8_len(p[1]) == 1
        && utf8_len(p[2]) == 1))
}

/// Whether the first three characters of `p` are ASCII, so its first three
/// bytes are those characters.
pub open spec fn ascii3(p: Seq<char>) -> bool {
    p.len() >= 3 && (p[0] as u32) < 0x80 && (p[1] as u32) < 0x80 && (p[2] as u32) < 0x80
}

/// Rust's `/` on integers: truncating toward zero (for positive `b`).
pub open spec fn tdiv(a: int, b: int) -> int {
    if a >= 0 {
        a / b
    } else {
        -((-a) / b)
    }
}

/// Rust's `%` on integers: the remainder takes the dividend's sign (for
/// positive `b`).
pub open spec fn tmod(a: int, b: int) -> int {
    if a >= 0 {
        a % b
    } else {
        -((-a) % b)
    }
}

pub open spec fn in_i64(x: int) -> bool {
    i64::MIN <= x <= i64::MAX
}

/// Every intermediate value of the days-from-civil computation (Howard
/// Hinnant's algorithm) and the millisecond total, in the order they are
/// computed; the last is the total.
pub open spec fn civil_steps(f: StampFields, millis: i64) -> Seq<int> {
    civil_steps_of(f.year, f.month, f.day, f.hour, f.minute, f.second, millis)
}

/// [`civil_steps`] over the fields themselves.
pub open spec fn civil_steps_of(
    year: i64,
    month: i64,
    day: i64,
    hour: i64,
    minute: i64,
    second: i64,
    millis: i64,
) -> Seq<int> {
    let y: int = if month <= 2 {
        year - 1
    } else {
        year as int
    };
    let e0: int = if y >= 0 {
        y
    } else {
        y - 399
    };
    let era: int = tdiv(e0, 400);
    let era400: int = era * 400;
    let yoe: int = y - era400;
    let m9: int = month + 9;
    let mp: int = tmod(m9, 12);
    let a1: int = 153 * mp;
    let a2: int = a1 + 2;
    let a4: int = tdiv(a2, 5) + day;
    let doy: int = a4 - 1;
    let b1: int = yoe * 365;
    let b2: int = b1 + tdiv(yoe, 4);
    let b3: int = b2 - tdiv(yoe, 100);
    let doe: int = b3 + doy;
    let c1: int = era * 146097;
    let c2: int = c1 + doe;
    let days: int = c2 - 719468;
    let d1: int = days * 86400;
    let d2: int = hour * 3600;
    let d3: int = d1 + d2;
    let d4: int = minute * 60;
    let d5: int = d3 + d4;
    let d6: int = d5 + second;
    let d7: int = d6 * 1000;
    let total: int = d7 + millis;
    seq![
        y, e0, era400, yoe, m9, a1, a2, a4, doy, b1, b2, b3, doe, c1, c2, days, d1, d2, d3, d4, d5,
        d6, d7, total,
    ]
}

/// Whether every intermediate value fits `i64`.
pub open spec fn civil_fits(f: StampFields, millis: i64) -> bool {
    forall|i: int| 0 <= i < civil_steps(f, millis).len() ==> in_i64(#[trigger] civil_steps(f, millis)[i])
}

/// The inputs on which the parser panics: the fraction's first three bytes
/// split a character, or the arithmetic overflows `i64`.
pub open spec fn rfc3339_panics(text: Seq<char>) -> bool {
    match stamp_fields(text) {
        None => false,
        Some(f) => {
            let p = pad3(f.frac);
            !boundary3(p) || (ascii3(p) && parse_i64(p.take(3)) is Some && !civil_fits(
                f,
                parse_i64(p.take(3))->Some_0,
            ))
        },
    }
}

/// RFC 3339 to unix milliseconds: the civil date and time as read, plus the
/// first three digits of the fraction; `None` when a field is missing, extra
/// or does not parse, when anything (an offset among it) follows the
/// seconds, or when the instant is before the epoch.
pub open spec fn rfc3339_ms(text: Seq<char>) -> Option<u64> {
    match stamp_fields(text) {
        None => None,
        Some(f) => {
            let p = pad3(f.frac);
            if !ascii3(p) {
                None
            } else {
                match parse_i64(p.take(3)) {
                    None => None,
                    Some(ms) => {
                        let total = civil_steps(f, ms).last();
                        if total >= 0 {
                            Some(total as u64)
                        } else {
                            None
                        }
                    },
                }
            }
        },
    }
}

} // verus!

verus! {

fn civil_total(
    year: i64,
    month: i64,
    day: i64,
    hour: i64,
    minute: i64,
    second: i64,
    millis: i64,
) -> (r: i64)
    requires
        forall|i: int|
            0 <= i < 24 ==> in_i64(
                #[trigger] civil_steps_of(year, month, day, hour, minute, second, millis)[i],
            ),
    ensures
        r == civil_steps_of(year, month, day, hour, minute, second, millis)[23],
{
    let ghost s = civil_steps_of(year, month, day, hour, minute, second, millis);
    assert(in_i64(s[0]));
    let y: i64 = if month <= 2 {
        year - 1
    } else {
        year
    };
    assert(in_i64(s[1]));
    let e0: i64 = if y >= 0 {
        y
    } else {
        y - 399
    };
    let era: i64 = e0 / 400;
    assert(era == tdiv(e0 as int, 400));
    assert(in_i64(s[2]));
    assert(in_i64(s[3]));
    let yoe: i64 = y - era * 400;
    assert(in_i64(s[4]));
    let mp: i64 = (month + 9) % 12;
    assert(mp == tmod(month + 9, 12));
    assert(in_i64(s[5]));
    assert(in_i64(s[6]));
    assert(in_i64(s[7]));
    assert(in_i64(s[8]));
    let doy: i64 = (153 * mp + 2) / 5 + day - 1;
    assert(in_i64(s[9]));
    assert(in_i64(s[10]));
    assert(in_i64(s[11]));
    assert(in_i64(s[12]));
    let doe: i64 = yoe * 365 + yoe / 4 - yoe / 100 + doy;
    assert(in_i64(s[13]));
    assert(in_i64(s[14]));
    assert(in_i64(s[15]));
    let days: i64 = era * 146_097 + doe - 719_468;
    assert(in_i64(s[16]));
    assert(in_i64(s[17]));
    assert(in_i64(s[18]));
    assert(in_i64(s[19]));
    assert(in_i64(s[20]));
    assert(in_i64(s[21]));
    assert(in_i64(s[22]));
    assert(in_i64(s[23]));
    ((days * 86_400 + hour * 3_600 + minute * 60 + second) * 1_000) + millis
}

} // verus!

verus! {

fn three_parts_chars(v: &Vec<char>, c: char) -> (r: Option<(Vec<char>, Vec<char>, Vec<char>)>)
    ensures
        match r {
            Some(t) => three_parts(v@, c) == Some((t.0@, t.1@, t.2@)),
            None => three_parts(v@, c) is None,
        },
{
    match split_once_chars(v, c) {
        None => None,
        Some(p) => match split_once_chars(&p.1, c) {
            None => None,
            Some(q) => match split_once_chars(&q.1, c) {
                Some(_) => None,
                None => Some((p.0, q.0, q.1)),
            },
        },
    }
}

fn stamp_fields_chars(v: &Vec<char>) -> (r: Option<(i64, i64, i64, i64, i64, i64, Vec<char>)>)
    ensures
        match r {
            Some(t) => stamp_fields(v@) == Some(
                StampFields {
                    year: t.0,
                    month: t.1,
                    day: t.2,
                    hour: t.3,
                    minute: t.4,
                    second: t.5,
                    frac: t.6@,
                },
            ),
            None => stamp_fields(v@) is None,
        },
{
    let t = trim_chars(v);
    let halves = match split_once_chars(&t, 'T') {
        None => return None,
        Some(h) => h,
    };
    let d = match three_parts_chars(&halves.0, '-') {
        None => return None,
        Some(d) => d,
    };
    let year = match parse_i64_chars(&d.0) {
        None => return None,
        Some(x) => x,
    };
    let month = match parse_i64_chars(&d.1) {
        None => return None,
        Some(x) => x,
    };
    let day = match parse_i64_chars(&d.2) {
        None => return None,
        Some(x) => x,
    };
    let time = strip_trailing_chars(&halves.1, 'Z');
    let tp = match three_parts_chars(&time, ':') {
        None => return None,
        Some(tp) => tp,
    };
    let hour = match parse_i64_chars(&tp.0) {
        None => return None,
        Some(x) => x,
    };
    let minute = match parse_i64_chars(&tp.1) {
        None => return None,
        Some(x) => x,
    };
    let (secs, frac) = match split_once_chars(&tp.2, '.') {
        Some(p) => p,
        None => {
            let mut zero: Vec<char> = Vec::new();
            zero.push('0');
            let whole = first_part_chars(&tp.2, '.');
            proof {
                assert(zero@ =~= seq!['0']);
            }
            (whole, zero)
        },
    };
    let second = match parse_i64_chars(&secs) {
        None => return None,
        Some(x) => x,
    };
    if !digits_only(&frac) {
        return None;
    }
    Some((year, month, day, hour, minute, second, frac))
}

fn digits_only(v: &Vec<char>) -> (r: bool)
    ensures
        r == all_digits(v@),
{
    let mut i: usize = 0;
    while i < v.len()
        invariant
            i <= v@.len(),
            forall|k: int| 0 <= k < i ==> is_digit(#[trigger] v@[k]),
        decreases v@.len() - i,
    {
        if !('0' <= v[i] && v[i] <= '9') {
            return false;
        }
        i = i + 1;
    }
    true
}

/// Whether every intermediate value of the days-from-civil computation and
/// the millisecond total fits `i64`, worked out in `i128`, where each step
/// from values that fit `i64` fits.
fn civil_fits_exec(year: i64, month: i64, day: i64, hour: i64, minute: i64, second: i64, millis: i64) -> (r: bool)
    ensures
        r == (forall|i: int|
            0 <= i < 24 ==> in_i64(#[trigger] civil_steps_of(year, month, day, hour, minute, second, millis)[i])),
{
    let ghost s = civil_steps_of(year, month, day, hour, minute, second, millis);
    let lo: i128 = -9223372036854775808;
    let hi: i128 = 9223372036854775807;
    let y: i128 = if month <= 2 { year as i128 - 1 } else { year as i128 };
    assert(y == s[0]);
    if y < lo || y > hi {
        assert(!in_i64(s[0]));
        return false;
    }
    let e0: i128 = if y >= 0 { y } else { y - 399 };
    assert(e0 == s[1]);
    if e0 < lo || e0 > hi {
        assert(!in_i64(s[1]));
        return false;
    }
    let era: i128 = e0 / 400;
    assert(era == tdiv(e0 as int, 400));
    let era400: i128 = era * 400;
    assert(era400 == s[2]);
    if era400 < lo || era400 > hi {
        assert(!in_i64(s[2]));
        return false;
    }
    let yoe: i128 = y - era400;
    assert(yoe == s[3]);
    if yoe < lo || yoe > hi {
        assert(!in_i64(s[3]));
        return false;
    }
    let m9: i128 = month as i128 + 9;
    assert(m9 == s[4]);
    if m9 < lo || m9 > hi {
        assert(!in_i64(s[4]));
        return false;
    }
    let mp: i128 = m9 % 12;
    assert(mp == tmod(m9 as int, 12));
    let a1: i128 = 153 * mp;
    assert(a1 == s[5]);
    if a1 < lo || a1 > hi {
        assert(!in_i64(s[5]));
        return false;
    }
    let a2: i128 = a1 + 2;
    assert(a2 == s[6]);
    if a2 < lo || a2 > hi {
        assert(!in_i64(s[6]));
        return false;
    }
    let a4: i128 = a2 / 5 + day as i128;
    assert(a4 == s[7]);
    if a4 < lo || a4 > hi {
        assert(!in_i64(s[7]));
        return false;
    }
    let doy: i128 = a4 - 1;
    assert(doy == s[8]);
    if doy < lo || doy > hi {
        assert(!in_i64(s[8]));
        return false;
    }
    let b1: i128 = yoe * 365;
    assert(b1 == s[9]);
    if b1 < lo || b1 > hi {
        assert(!in_i64(s[9]));
        return false;
    }
    let b2: i128 = b1 + yoe / 4;
    assert(b2 == s[10]);
    if b2 < lo || b2 > hi {
        assert(!in_i64(s[10]));
        return false;
    }
    let b3: i128 = b2 - yoe / 100;
    assert(b3 == s[11]);
    if b3 < lo || b3 > hi {
        assert(!in_i64(s[11]));
        return false;
    }
    let doe: i128 = b3 + doy;
    assert(doe == s[12]);
    if doe < lo || doe > hi {
        assert(!in_i64(s[12]));
        return false;
    }
    let c1: i128 = era * 146097;
    assert(c1 == s[13]);
    if c1 < lo || c1 > hi {
        assert(!in_i64(s[13]));
        return false;
    }
    let c2: i128 = c1 + doe;
    assert(c2 == s[14]);
    if c2 < lo || c2 > hi {
        assert(!in_i64(s[14]));
        return false;
    }
    let days: i128 = c2 - 719468;
    assert(days == s[15]);
    if days < lo || days > hi {
        assert(!in_i64(s[15]));
        return false;
    }
    let d1: i128 = days * 86400;
    assert(d1 == s[16]);
    if d1 < lo || d1 > hi {
        assert(!in_i64(s[16]));
        return false;
    }
    let d2: i128 = hour as i128 * 3600;
    assert(d2 == s[17]);
    if d2 < lo || d2 > hi {
        assert(!in_i64(s[17]));
        return false;
    }
    let d3: i128 = d1 + d2;
    assert(d3 == s[18]);
    if d3 < lo || d3 > hi {
        assert(!in_i64(s[18]));
        return false;
    }
    let d4: i128 = minute as i128 * 60;
    assert(d4 == s[19]);
    if d4 < lo || d4 > hi {
        assert(!in_i64(s[19]));
        return false;
    }
    let d5: i128 = d3 + d4;
    assert(d5 == s[20]);
    if d5 < lo || d5 > hi {
        assert(!in_i64(s[20]));
        return false;
    }
    let d6: i128 = d5 + second as i128;
    assert(d6 == s[21]);
    if d6 < lo || d6 > hi {
        assert(!in_i64(s[21]));
        return false;
    }
    let d7: i128 = d6 * 1000;
    assert(d7 == s[22]);
    if d7 < lo || d7 > hi {
        assert(!in_i64(s[22]));
        return false;
    }
    let total: i128 = d7 + millis as i128;
    assert(total == s[23]);
    if total < lo || total > hi {
        assert(!in_i64(s[23]));
        return false;
    }
    assert forall|i: int| 0 <= i < 24 implies in_i64(#[trigger] s[i]) by {
        if i == 0 {
        } else if i == 1 {
        } else if i == 2 {
        } else if i == 3 {
        } else if i == 4 {
        } else if i == 5 {
        } else if i == 6 {
        } else if i == 7 {
        } else if i == 8 {
        } else if i == 9 {
        } else if i == 10 {
        } else if i == 11 {
        } else if i == 12 {
        } else if i == 13 {
        } else if i == 14 {
        } else if i == 15 {
        } else if i == 16 {
        } else if i == 17 {
        } else if i == 18 {
        } else if i == 19 {
        } else if i == 20 {
        } else if i == 21 {
        } else if i == 22 {
        } else if i == 23 {
        }
    }
    true
}

/// Whether parsing `text` as a receipt timestamp would overflow `i64`, the
/// one way [`parse_rfc3339_ms`] can fail to return: a caller holding text
/// of unknown origin asks this first.
pub fn rfc3339_overflows(text: &str) -> (r: bool)
    ensures
        r == rfc3339_panics(text@),
{
    let v = chars_of(text);
    let f = match stamp_fields_chars(&v) {
        None => return false,
        Some(f) => f,
    };
    let mut p = f.6;
    while p.len() < 3
        invariant
            p@.len() <= 3 ==> pad3(p@) == pad3(f.6@),
            p@.len() > 3 ==> p@ == f.6@,
            p@.len() >= f.6@.len(),
        decreases 3 - p@.len(),
    {
        let ghost before = p@;
        p.push('0');
        proof {
            if f.6@.len() < 3 {
                assert(pad3(p@) =~= pad3(before));
            }
        }
    }
    proof {
        if f.6@.len() < 3 {
            assert(p@ =~= pad3(f.6@));
        } else {
            assert(p@ == f.6@);
        }
        assert(all_digits(f.6@));
        assert forall|k: int| 0 <= k < p@.len() implies is_digit(#[trigger] p@[k]) by {
            if k >= f.6@.len() {
                assert(p@[k] == '0');
            }
        }
        assert(is_digit(p@[0]) && is_digit(p@[1]) && is_digit(p@[2]));
        assert(ascii3(p@));
        assert(boundary3(p@));
    }
    let mut first3: Vec<char> = Vec::new();
    first3.push(p[0]);
    first3.push(p[1]);
    first3.push(p[2]);
    proof {
        assert(first3@ =~= p@.take(3));
    }
    match parse_i64_chars(&first3) {
        None => false,
        Some(millis) => {
            let fits = civil_fits_exec(f.0, f.1, f.2, f.3, f.4, f.5, millis);
            proof {
                let sf = StampFields { year: f.0, month: f.1, day: f.2, hour: f.3, minute: f.4, second: f.5, frac: f.6@ };
                assert(civil_steps(sf, millis) == civil_steps_of(f.0, f.1, f.2, f.3, f.4, f.5, millis));
            }
            !fits
        },
    }
}

/// Minimal RFC 3339 to unix milliseconds.
///
/// Reads exactly one direction of one format, the UTC round-trip form a
/// receipt lane writes. Anything else gives `None`, and the caller treats
/// the time as unknown rather than failing an otherwise good ingest.
pub fn parse_rfc3339_ms(text: &str) -> (r: Option<u64>)
    requires
        !rfc3339_panics(text@),
    ensures
        r == rfc3339_ms(text@),
{
    let v = chars_of(text);
    let f = match stamp_fields_chars(&v) {
        None => return None,
        Some(f) => f,
    };
    let mut p = f.6;
    while p.len() < 3
        invariant
            p@.len() <= 3 ==> pad3(p@) == pad3(f.6@),
            p@.len() > 3 ==> p@ == f.6@,
            p@.len() >= f.6@.len(),
        decreases 3 - p@.len(),
    {
        let ghost before = p@;
        p.push('0');
        proof {
            if f.6@.len() < 3 {
                assert(pad3(p@) =~= pad3(before));
            }
        }
    }
    proof {
        if f.6@.len() < 3 {
            assert(p@ =~= pad3(f.6@));
        } else {
            assert(p@ == f.6@);
        }
    }
    if !((p[0] as u32) < 0x80 && (p[1] as u32) < 0x80 && (p[2] as u32) < 0x80) {
        return None;
    }
    let mut first3: Vec<char> = Vec::new();
    first3.push(p[0]);
    first3.push(p[1]);
    first3.push(p[2]);
    proof {
        assert(first3@ =~= p@.take(3));
    }
    let millis = match parse_i64_chars(&first3) {
        None => return None,
        Some(ms) => ms,
    };
    proof {
        let sf = StampFields { year: f.0, month: f.1, day: f.2, hour: f.3, minute: f.4, second: f.5, frac: f.6@ };
        assert(civil_fits(sf, millis));
        assert forall|i: int| 0 <= i < 24 implies in_i64(
            #[trigger] civil_steps_of(f.0, f.1, f.2, f.3, f.4, f.5, millis)[i],
        ) by {
            assert(in_i64(civil_steps(sf, millis)[i]));
        }
    }
    let total = civil_total(f.0, f.1, f.2, f.3, f.4, f.5, millis);
    if total >= 0 {
        Some(total as u64)
    } else {
        None
    }
}

} // verus!

verus! {

/// The facet carrying a run's provenance.
pub const FACET_RUN: &'static str = "receipt.run";

/// The facet listing a run's artifacts.
pub const FACET_ARTIFACTS: &'static str = "receipt.artifacts";

/// Address prefix for every receipt node.
pub const ADDRESS_PREFIX: &'static str = "receipt:";

/// Namespace for deriving a receipt's node id from its address: a
/// name-based identifier, so ingesting the same run twice reaches the same
/// node.
pub const RECEIPT_NAMESPACE: u128 = 0x8f2c_41d7_5e3b_4a90_9c17_6de2_0b84_f5a3;

/// One artifact as the run's machine recorded it.
#[derive(Debug, PartialEq, Eq)]
pub struct ManifestArtifact {
    /// File name within the receipt directory.
    pub name: String,
    /// Size in bytes.
    pub bytes: u64,
    /// Lowercase hex SHA-256, computed on the machine that wrote the artifact.
    pub sha256: String,
}

impl Clone for ManifestArtifact {
    fn clone(&self) -> (r: Self)
        ensures
            r.name@ == self.name@,
            r.bytes == self.bytes,
            r.sha256@ == self.sha256@,
    {
        ManifestArtifact { name: self.name.clone(), bytes: self.bytes, sha256: self.sha256.clone() }
    }
}

/// A receipt manifest, as the remote-receipt lane records it.
///
/// Unknown fields are kept in `extra` rather than rejected: a newer lane may
/// record more provenance than this build knows about.
#[derive(Debug, PartialEq)]
pub struct ReceiptManifest {
    /// Repository the scenario belongs to.
    pub repo: String,
    /// Cargo package that ran.
    pub package: String,
    /// Scenario path, relative to the checkout.
    pub scenario: String,
    /// SSH destination the run happened on.
    pub target: String,
    /// `linux` / `macos` / `windows`.
    pub platform: String,
    /// `uname -sr` (or equivalent) of the machine that ran it.
    pub remote_os: String,
    /// Commit the checkout was on.
    pub remote_commit: String,
    /// How many files were dirty.
    pub remote_dirty: u32,
    /// `wayland (…)`, `x11 (…)`, `aqua`.
    pub session: String,
    /// When the run happened, RFC 3339.
    pub ran_at_utc: String,
    /// Process exit code.
    pub exit_code: i32,
    /// The artifacts, with the digests to verify them against.
    pub artifacts: Vec<ManifestArtifact>,
    /// Everything else the lane recorded, preserved untouched.
    pub extra: Vec<(String, crate::json::JsonValue)>,
}

/// What follows the last of the separators in `seps`: the first piece
/// `str::rsplit` yields.
pub open spec fn after_last(s: Seq<char>, seps: Set<char>) -> Seq<char>
    decreases s.len(),
{
    if s.len() == 0 {
        s
    } else if seps.contains(s.last()) {
        Seq::empty()
    } else {
        after_last(s.drop_last(), seps).push(s.last())
    }
}

/// `str::trim_end_matches(suffix)`: `s` without every trailing `suffix`.
pub open spec fn strip_suffixes(s: Seq<char>, suffix: Seq<char>) -> Seq<char>
    decreases s.len(),
{
    if suffix.len() > 0 && s.len() >= suffix.len() && s.subrange(
        s.len() - suffix.len(),
        s.len() as int,
    ) == suffix {
        strip_suffixes(s.subrange(0, s.len() - suffix.len()), suffix)
    } else {
        s
    }
}

/// The bare scenario file name: the last path piece without `.scn`.
pub open spec fn scenario_name_of(scenario: Seq<char>) -> Seq<char> {
    strip_suffixes(after_last(scenario, set!['/', '\\']), seq!['.', 's', 'c', 'n'])
}

/// The machine part of an SSH destination: what follows its last `@`.
pub open spec fn host_of(target: Seq<char>) -> Seq<char> {
    after_last(target, set!['@'])
}

fn after_last_chars(v: &Vec<char>, a: char, b: char) -> (r: Vec<char>)
    ensures
        r@ == after_last(v@, set![a, b]),
{
    let mut lo = v.len();
    assert(v@.subrange(v@.len() as int, v@.len() as int) =~= Seq::<char>::empty());
    assert(v@.subrange(0, v@.len() as int) =~= v@);
    assert(after_last(v@, set![a, b]) + Seq::<char>::empty() =~= after_last(v@, set![a, b]));
    while lo > 0 && v[lo - 1] != a && v[lo - 1] != b
        invariant
            lo <= v@.len(),
            after_last(v@, set![a, b]) == after_last(v@.subrange(0, lo as int), set![a, b])
                + v@.subrange(lo as int, v@.len() as int),
        decreases lo,
    {
        proof {
            let pre = v@.subrange(0, lo as int);
            assert(pre.drop_last() =~= v@.subrange(0, lo - 1));
            assert(v@.subrange(lo - 1, v@.len() as int) =~= seq![pre.last()] + v@.subrange(
                lo as int,
                v@.len() as int,
            ));
            assert(after_last(pre, set![a, b]) == after_last(pre.drop_last(), set![a, b]).push(
                pre.last(),
            ));
            assert(after_last(pre.drop_last(), set![a, b]).push(pre.last()) + v@.subrange(
                lo as int,
                v@.len() as int,
            ) =~= after_last(pre.drop_last(), set![a, b]) + v@.subrange(lo - 1, v@.len() as int));
        }
        lo = lo - 1;
    }
    proof {
        let pre = v@.subrange(0, lo as int);
        if lo == 0 {
            assert(after_last(pre, set![a, b]) =~= Seq::<char>::empty());
        }
        assert(after_last(pre, set![a, b]) =~= Seq::<char>::empty());
    }
    crate::text::sub_chars(v, lo, v.len())
}

/// The bare scenario file name, for titles and tags.
pub fn scenario_name(scenario: &str) -> (r: String)
    ensures
        r@ == scenario_name_of(scenario@),
{
    let v = chars_of(scenario);
    let mut s = after_last_chars(&v, '/', '\\');
    let ghost start = s@;
    let ghost suffix = seq!['.', 's', 'c', 'n'];
    while s.len() >= 4 && s[s.len() - 4] == '.' && s[s.len() - 3] == 's' && s[s.len() - 2]
        == 'c' && s[s.len() - 1] == 'n'
        invariant
            strip_suffixes(start, suffix) == strip_suffixes(s@, suffix),
            suffix == seq!['.', 's', 'c', 'n'],
        decreases s@.len(),
    {
        let n = s.len() - 4;
        proof {
            assert(s@.subrange(n as int, s@.len() as int) =~= suffix);
        }
        let t = crate::text::sub_chars(&s, 0, n);
        s = t;
    }
    proof {
        if s@.len() >= 4 {
            assert(s@.subrange(s@.len() - 4, s@.len() as int) != suffix) by {
                if s@.subrange(s@.len() - 4, s@.len() as int) == suffix {
                    assert(s@[s@.len() - 4] == s@.subrange(s@.len() - 4, s@.len() as int)[0]);
                    assert(s@[s@.len() - 3] == s@.subrange(s@.len() - 4, s@.len() as int)[1]);
                    assert(s@[s@.len() - 2] == s@.subrange(s@.len() - 4, s@.len() as int)[2]);
                    assert(s@[s@.len() - 1] == s@.subrange(s@.len() - 4, s@.len() as int)[3]);
                }
            }
        }
    }
    crate::text::string_from_chars(&s)
}

} // verus!

verus! {

/// The name-based (version 5) UUID for `name` under `namespace`, as a
/// 128-bit value.
pub uninterp spec fn uuid_v5(namespace: u128, name: Seq<u8>) -> u128;

/// `uuid::Uuid::new_v5`: the SHA-1 name-based identifier of `name` within
/// `namespace`, a function of the two alone.
#[verifier::external_body]
fn new_v5(namespace: u128, name: &[u8]) -> (r: u128)
    ensures
        r == uuid_v5(namespace, name@),
{
    uuid::Uuid::new_v5(&uuid::Uuid::from_u128(namespace), name).as_u128()
}

/// A receipt's stable address, built from the run's own facts.
pub open spec fn address_of(m: ReceiptManifest) -> Seq<char> {
    "receipt:"@ + m.repo@ + seq!['/'] + host_of(m.target@) + seq!['/'] + m.scenario@ + seq!['/']
        + m.ran_at_utc@
}

impl ReceiptManifest {
    /// The machine part of `target`.
    pub fn host(&self) -> (r: String)
        ensures
            r@ == host_of(self.target@),
    {
        let v = chars_of(self.target.as_str());
        let h = after_last_chars(&v, '@', '@');
        proof {
            assert(set!['@', '@'] =~= set!['@']);
        }
        crate::text::string_from_chars(&h)
    }

    /// The receipt's stable address: what identifies this run forever.
    ///
    /// Built from the run's own facts rather than the directory name, so the
    /// same run ingested from a copied or renamed directory is still the same
    /// receipt.
    pub fn address(&self) -> (r: String)
        ensures
            r@ == address_of(*self),
    {
        let mut out = "receipt:".to_owned();
        push_str(&mut out, self.repo.as_str());
        push_char(&mut out, '/');
        let host = self.host();
        push_str(&mut out, host.as_str());
        push_char(&mut out, '/');
        push_str(&mut out, self.scenario.as_str());
        push_char(&mut out, '/');
        push_str(&mut out, self.ran_at_utc.as_str());
        proof {
            assert(out@ =~= address_of(*self));
        }
        out
    }

    /// The node id this receipt always lands on.
    pub fn node_id(&self) -> (r: u128)
        ensures
            r == uuid_v5(RECEIPT_NAMESPACE, vstd::utf8::encode_utf8(address_of(*self))),
    {
        let address = self.address();
        new_v5(RECEIPT_NAMESPACE, address.as_str().as_bytes())
    }

    /// A one-line title for a list.
    pub fn title(&self) -> (r: String)
        ensures
            r@ == self.repo@ + " · "@ + scenario_name_of(self.scenario@) + " on "@ + host_of(
                self.target@,
            ) + " · "@ + (if self.exit_code == 0 {
                "ok"@
            } else {
                "failed"@
            }),
    {
        let mut out = self.repo.clone();
        push_str(&mut out, " · ");
        let name = scenario_name(self.scenario.as_str());
        push_str(&mut out, name.as_str());
        push_str(&mut out, " on ");
        let host = self.host();
        push_str(&mut out, host.as_str());
        push_str(&mut out, " · ");
        if self.exit_code == 0 {
            push_str(&mut out, "ok");
        } else {
            push_str(&mut out, "failed");
        }
        out
    }

    /// Whether the run passed.
    pub fn passed(&self) -> (r: bool)
        ensures
            r == (self.exit_code == 0),
    {
        self.exit_code == 0
    }

    /// The run's timestamp in unix milliseconds; `0` when the timestamp does
    /// not parse, which keeps ingest total rather than making a clock the
    /// failure path.
    pub fn ran_at_ms(&self) -> (r: u64)
        requires
            !rfc3339_panics(self.ran_at_utc@),
        ensures
            r == match rfc3339_ms(self.ran_at_utc@) {
                Some(ms) => ms,
                None => 0,
            },
    {
        match parse_rfc3339_ms(self.ran_at_utc.as_str()) {
            Some(ms) => ms,
            None => 0,
        }
    }
}

} // verus!
