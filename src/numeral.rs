//! Reading of unsigned integers and fixed-point decimals from text.

use vstd::prelude::*;

verus! {

pub open spec fn is_digit(c: char) -> bool {
    '0' <= c && c <= '9'
}

pub open spec fn digit_value(c: char) -> int {
    c as int - '0' as int
}

/// The characters allowed in a numeral body: digits, and the decimal point
/// where `allow_point` holds.
pub open spec fn numeral_chars(s: Seq<char>, allow_point: bool) -> bool {
    forall|i: int| 0 <= i < s.len() ==> (is_digit(#[trigger] s[i]) || (allow_point && s[i] == '.'))
}

/// The number spelled by the digits of `s`, read in base ten; a decimal point
/// is passed over.
pub open spec fn digits_value(s: Seq<char>) -> int
    decreases s.len(),
{
    if s.len() == 0 {
        0
    } else if s.last() == '.' {
        digits_value(s.drop_last())
    } else {
        digits_value(s.drop_last()) * 10 + digit_value(s.last())
    }
}

pub open spec fn point_count(s: Seq<char>) -> nat
    decreases s.len(),
{
    if s.len() == 0 {
        0
    } else {
        point_count(s.drop_last()) + if s.last() == '.' { 1nat } else { 0nat }
    }
}

/// How many digits follow the decimal point (0 without one).
pub open spec fn fraction_len(s: Seq<char>) -> nat
    decreases s.len(),
{
    if s.len() == 0 || s.last() == '.' {
        0
    } else if point_count(s.drop_last()) > 0 {
        fraction_len(s.drop_last()) + 1
    } else {
        0
    }
}

/// A numeral body: digits with at most one decimal point, and at least one digit.
pub open spec fn well_formed_numeral(s: Seq<char>, allow_point: bool) -> bool {
    &&& numeral_chars(s, allow_point)
    &&& point_count(s) <= 1
    &&& point_count(s) < s.len()
}

/// The value and fraction length of a numeral body no greater than `limit`.
pub open spec fn numeral_of(s: Seq<char>, allow_point: bool, limit: int) -> Option<(int, nat)> {
    if well_formed_numeral(s, allow_point) && digits_value(s) <= limit {
        Some((digits_value(s), fraction_len(s)))
    } else {
        None
    }
}

/// The unsigned integer spelled by `s` (an optional `+`, then decimal digits),
/// when it is at most `max`.
pub open spec fn unsigned_of(s: Seq<char>, max: int) -> Option<int> {
    let body = if s.len() > 0 && s[0] == '+' { s.drop_first() } else { s };
    match numeral_of(body, false, max) {
        Some(v) => Some(v.0),
        None => None,
    }
}

proof fn lemma_digits_value_nonneg(s: Seq<char>)
    requires
        numeral_chars(s, true),
    ensures
        digits_value(s) >= 0,
    decreases s.len(),
{
    if s.len() > 0 {
        assert(numeral_chars(s.drop_last(), true)) by {
            assert forall|i: int| 0 <= i < s.drop_last().len() implies (is_digit(
                #[trigger] s.drop_last()[i],
            ) || s.drop_last()[i] == '.') by {
                assert(s.drop_last()[i] == s[i]);
            }
        }
        lemma_digits_value_nonneg(s.drop_last());
        assert(is_digit(s[s.len() - 1]) || s[s.len() - 1] == '.');
    }
}

/// The value of a prefix is at most the value of the whole.
proof fn lemma_prefix_value_le(s: Seq<char>, j: int)
    requires
        numeral_chars(s, true),
        0 <= j <= s.len(),
    ensures
        digits_value(s.take(j)) <= digits_value(s),
    decreases s.len(),
{
    if j < s.len() {
        let t = s.drop_last();
        assert(numeral_chars(t, true)) by {
            assert forall|i: int| 0 <= i < t.len() implies (is_digit(#[trigger] t[i]) || t[i]
                == '.') by {
                assert(t[i] == s[i]);
            }
        }
        lemma_prefix_value_le(t, j);
        assert(t.take(j) =~= s.take(j));
        lemma_digits_value_nonneg(t);
        assert(is_digit(s[s.len() - 1]) || s[s.len() - 1] == '.');
    } else {
        assert(s.take(j) =~= s);
    }
}

/// Reads the numeral body `s@[start..end]`: its value if it is at most `limit`,
/// and the number of digits after the point.
pub fn read_numeral(s: &str, start: usize, end: usize, allow_point: bool, limit: u64) -> (r: Option<(u64, usize)>)
    requires
        start <= end <= s@.len(),
    ensures
        r is Some <==> numeral_of(s@.subrange(start as int, end as int), allow_point, limit as int) is Some,
        r matches Some(v) ==> numeral_of(s@.subrange(start as int, end as int), allow_point, limit as int)
            == Some((v.0 as int, v.1 as nat)),
{
    let n = end;
    let ghost body = s@.subrange(start as int, end as int);
    let mut acc: u64 = 0;
    let mut frac: usize = 0;
    let mut points: usize = 0;
    let mut i: usize = start;
    while i < n
        invariant
            n == end,
            end <= s@.len(),
            body == s@.subrange(start as int, end as int),
            start <= i <= n,
            numeral_chars(body.take(i - start), allow_point),
            acc as int == digits_value(body.take(i - start)),
            acc <= limit,
            frac as int == fraction_len(body.take(i - start)),
            points as int == point_count(body.take(i - start)),
            points <= 1,
            frac <= i,
        decreases n - i,
    {
        let c = s.get_char(i);
        let ghost prev = body.take(i - start);
        let ghost next = body.take(i + 1 - start);
        assert(next.drop_last() =~= prev);
        assert(next.last() == c);
        if c == '.' && allow_point {
            if points == 1 {
                assert(point_count(next) == 2);
                assert(point_count(body) >= 2) by {
                    lemma_point_count_prefix(body, i + 1 - start);
                }
                return None;
            }
            points = 1;
        } else if '0' <= c && c <= '9' {
            let d: u64 = (c as u32 - '0' as u32) as u64;
            let wide: u128 = acc as u128 * 10 + d as u128;
            if wide > limit as u128 {
                proof {
                    assert(numeral_chars(next, allow_point)) by {
                        assert forall|k: int| 0 <= k < next.len() implies (is_digit(
                            #[trigger] next[k],
                        ) || (allow_point && next[k] == '.')) by {
                            if k < prev.len() {
                                assert(next[k] == prev[k]);
                            }
                        }
                    }
                    if numeral_chars(body, allow_point) {
                        assert(numeral_chars(body, true)) by {
                            assert forall|k: int| 0 <= k < body.len() implies (is_digit(
                                #[trigger] body[k],
                            ) || body[k] == '.') by {
                                assert(is_digit(body[k]) || (allow_point && body[k] == '.'));
                            }
                        }
                        lemma_prefix_value_le(body, i + 1 - start);
                    }
                }
                return None;
            }
            acc = wide as u64;
            if points == 1 {
                frac = frac + 1;
            }
        } else {
            proof {
                assert(body[i - start] == c);
                assert(!numeral_chars(body, allow_point));
            }
            return None;
        }
        proof {
            assert(numeral_chars(next, allow_point)) by {
                assert forall|k: int| 0 <= k < next.len() implies (is_digit(#[trigger] next[k])
                    || (allow_point && next[k] == '.')) by {
                    if k < prev.len() {
                        assert(next[k] == prev[k]);
                    }
                }
            }
        }
        i = i + 1;
    }
    assert(body.take(n - start) =~= body);
    if points == 1 && i - start == 1 {
        return None;
    }
    if i == start {
        return None;
    }
    Some((acc, frac))
}

proof fn lemma_point_count_prefix(s: Seq<char>, j: int)
    requires
        0 <= j <= s.len(),
    ensures
        point_count(s.take(j)) <= point_count(s),
    decreases s.len(),
{
    if j < s.len() {
        lemma_point_count_prefix(s.drop_last(), j);
        assert(s.drop_last().take(j) =~= s.take(j));
    } else {
        assert(s.take(j) =~= s);
    }
}

/// Reads an unsigned integer no greater than `max`: an optional `+`, then one
/// or more decimal digits, and nothing else.
pub fn parse_unsigned(s: &str, max: u64) -> (r: Option<u64>)
    ensures
        r is Some <==> unsigned_of(s@, max as int) is Some,
        r matches Some(v) ==> unsigned_of(s@, max as int) == Some(v as int) && v <= max,
{
    let n = s.unicode_len();
    let start: usize = if n > 0 && s.get_char(0) == '+' { 1 } else { 0 };
    proof {
        if start == 1 {
            assert(s@.subrange(1, n as int) =~= s@.drop_first());
        } else {
            assert(s@.subrange(0, n as int) =~= s@);
        }
    }
    match read_numeral(s, start, n, false, max) {
        Some(v) => Some(v.0),
        None => None,
    }
}

/// A signed fixed-point number: `units` times ten to the power of minus
/// `places`. Coordinates are kept this way, exactly as they were written or
/// reported (millimetres from the positioning source are `places == 3`).
#[derive(Clone, Copy, Debug, PartialEq, Eq, Structural)]
pub struct Decimal {
    pub units: i64,
    pub places: usize,
}

impl Decimal {
    /// A length given in whole millimetres, as metres.
    pub fn from_millimetres(mm: i32) -> (r: Decimal)
        ensures
            r == (Decimal { units: mm as i64, places: 3 }),
    {
        Decimal { units: mm as i64, places: 3 }
    }
}

/// The largest exponent magnitude read.
pub const EXPONENT_LIMIT: u64 = 100000;

pub open spec fn pow10(n: nat) -> int
    decreases n,
{
    if n == 0 {
        1
    } else {
        10 * pow10((n - 1) as nat)
    }
}

/// Index of the first exponent mark (`e` or `E`).
pub open spec fn exponent_mark(s: Seq<char>) -> Option<int>
    decreases s.len(),
{
    if s.len() == 0 {
        None
    } else if s[0] == 'e' || s[0] == 'E' {
        Some(0)
    } else {
        match exponent_mark(s.drop_first()) {
            Some(k) => Some(k + 1),
            None => None,
        }
    }
}

/// The signed exponent spelled by `e`: an optional sign, then digits, with
/// magnitude at most `EXPONENT_LIMIT`.
pub open spec fn exponent_of(e: Seq<char>) -> Option<int> {
    let signed = e.len() > 0 && (e[0] == '+' || e[0] == '-');
    let digits = if signed { e.drop_first() } else { e };
    match numeral_of(digits, false, EXPONENT_LIMIT as int) {
        Some(v) => Some(if signed && e[0] == '-' { -v.0 } else { v.0 }),
        None => None,
    }
}

/// `v` times ten to the power of `exp - frac`, kept exact: as more places
/// where that power is negative, else as larger units that must fit `i64`.
pub open spec fn scaled(v: int, frac: nat, exp: int) -> Option<(int, nat)> {
    if exp <= frac {
        if frac - exp <= usize::MAX {
            Some((v, (frac - exp) as nat))
        } else {
            None
        }
    } else if v * pow10((exp - frac) as nat) <= i64::MAX {
        Some((v * pow10((exp - frac) as nat), 0nat))
    } else {
        None
    }
}

/// The unsigned value and places of a numeral body with an optional exponent.
pub open spec fn magnitude_of(body: Seq<char>) -> Option<(int, nat)> {
    match exponent_mark(body) {
        None => numeral_of(body, true, i64::MAX as int),
        Some(k) => match numeral_of(body.take(k), true, i64::MAX as int) {
            None => None,
            Some(m) => match exponent_of(body.skip(k + 1)) {
                None => None,
                Some(e) => scaled(m.0, m.1, e),
            },
        },
    }
}

/// The decimal spelled by `s`: an optional sign, then digits with at most one
/// decimal point and at least one digit, then optionally `e` or `E` and a
/// signed exponent; the value is kept exactly, so its digits, read as an
/// integer, must fit in `i64`.
pub open spec fn decimal_of(s: Seq<char>) -> Option<Decimal> {
    let signed = s.len() > 0 && (s[0] == '+' || s[0] == '-');
    let body = if signed { s.drop_first() } else { s };
    match magnitude_of(body) {
        Some(v) => Some(
            Decimal {
                units: (if signed && s[0] == '-' { -v.0 } else { v.0 }) as i64,
                places: v.1 as usize,
            },
        ),
        None => None,
    }
}

proof fn lemma_exponent_mark_in_range(s: Seq<char>)
    ensures
        exponent_mark(s) matches Some(k) ==> 0 <= k < s.len() && (s[k] == 'e' || s[k] == 'E'),
    decreases s.len(),
{
    if s.len() > 0 {
        lemma_exponent_mark_in_range(s.drop_first());
    }
}

/// Index of the first exponent mark in `s@[start..]`, as an index of `s`.
fn find_exponent_mark(s: &str, start: usize) -> (r: Option<usize>)
    requires
        start <= s@.len(),
    ensures
        match exponent_mark(s@.skip(start as int)) {
            None => r is None,
            Some(k) => r == Some((start + k) as usize),
        },
        r matches Some(m) ==> start <= m < s@.len(),
{
    let n = s.unicode_len();
    let mut i: usize = start;
    assert(s@.skip(start as int).skip(0) =~= s@.skip(start as int));
    while i < n
        invariant
            n == s@.len(),
            start <= i <= n,
            exponent_mark(s@.skip(start as int)) == match exponent_mark(s@.skip(i as int)) {
                None => None,
                Some(k) => Some(k + (i - start)),
            },
        decreases n - i,
    {
        assert(s@.skip(i as int).drop_first() =~= s@.skip(i + 1));
        let c = s.get_char(i);
        assert(s@.skip(i as int)[0] == c);
        if c == 'e' || c == 'E' {
            return Some(i);
        }
        i = i + 1;
    }
    assert(s@.skip(n as int).len() == 0);
    None
}

/// `v` times ten to the power of `shift`, if that fits `i64`.
fn scale_up(v: u64, shift: u64) -> (r: Option<u64>)
    requires
        v <= i64::MAX,
    ensures
        r is Some <==> v * pow10(shift as nat) <= i64::MAX,
        r matches Some(u) ==> u as int == v * pow10(shift as nat),
{
    let mut acc: u64 = v;
    let mut k: u64 = 0;
    while k < shift
        invariant
            k <= shift,
            acc as int == v * pow10(k as nat),
            acc <= i64::MAX,
        decreases shift - k,
    {
        let wide: u128 = acc as u128 * 10;
        proof {
            assert(pow10((k + 1) as nat) == 10 * pow10(k as nat));
            assert(v * pow10((k + 1) as nat) == 10 * (v * pow10(k as nat))) by (nonlinear_arith)
                requires
                    pow10((k + 1) as nat) == 10 * pow10(k as nat),
            ;
        }
        if wide > i64::MAX as u128 {
            proof {
                lemma_scale_grows(v, (k + 1) as nat, shift as nat);
            }
            return None;
        }
        acc = wide as u64;
        k = k + 1;
    }
    Some(acc)
}

proof fn lemma_pow10_positive(n: nat)
    ensures
        pow10(n) >= 1,
    decreases n,
{
    if n > 0 {
        lemma_pow10_positive((n - 1) as nat);
    }
}

proof fn lemma_scale_grows(v: u64, a: nat, b: nat)
    requires
        a <= b,
    ensures
        v * pow10(a) <= v * pow10(b),
    decreases b - a,
{
    if a < b {
        lemma_scale_grows(v, a, (b - 1) as nat);
        lemma_pow10_positive((b - 1) as nat);
        assert(pow10(b) == 10 * pow10((b - 1) as nat));
        assert(v * pow10((b - 1) as nat) <= v * pow10(b)) by (nonlinear_arith)
            requires
                pow10(b) == 10 * pow10((b - 1) as nat),
                pow10((b - 1) as nat) >= 1,
                v >= 0,
        ;
    }
}

/// Reads the unsigned part of a decimal, from `start` on (see `magnitude_of`).
fn read_magnitude(s: &str, start: usize) -> (r: Option<(u64, usize)>)
    requires
        start <= s@.len(),
    ensures
        r is Some <==> magnitude_of(s@.skip(start as int)) is Some,
        r matches Some(v) ==> magnitude_of(s@.skip(start as int)) == Some((v.0 as int, v.1 as nat))
            && v.0 <= i64::MAX,
{
    let n = s.unicode_len();
    let ghost body = s@.skip(start as int);
    proof {
        lemma_exponent_mark_in_range(body);
    }
    match find_exponent_mark(s, start) {
        None => {
            assert(s@.subrange(start as int, n as int) =~= body);
            read_numeral(s, start, n, true, i64::MAX as u64)
        },
        Some(mark) => {
            let ghost k = mark - start;
            assert(s@.subrange(start as int, mark as int) =~= body.take(k));
            let m = match read_numeral(s, start, mark, true, i64::MAX as u64) {
                Some(m) => m,
                None => return None,
            };
            let es = mark + 1;
            let ghost etext = body.skip(k + 1);
            assert(s@.skip(es as int) =~= etext);
            let esigned = es < n && (s.get_char(es) == '+' || s.get_char(es) == '-');
            let eneg = esigned && s.get_char(es) == '-';
            let dstart: usize = if esigned { es + 1 } else { es };
            proof {
                if esigned {
                    assert(etext[0] == s@[es as int]);
                    assert(s@.subrange(dstart as int, n as int) =~= etext.drop_first());
                } else {
                    assert(s@.subrange(dstart as int, n as int) =~= etext);
                }
            }
            let e = match read_numeral(s, dstart, n, false, EXPONENT_LIMIT) {
                Some(e) => e.0,
                None => return None,
            };
            if eneg {
                let p: u128 = m.1 as u128 + e as u128;
                if p > usize::MAX as u128 {
                    return None;
                }
                Some((m.0, p as usize))
            } else if e as usize <= m.1 {
                Some((m.0, m.1 - e as usize))
            } else {
                match scale_up(m.0, e - m.1 as u64) {
                    Some(u) => Some((u, 0)),
                    None => None,
                }
            }
        },
    }
}

/// Reads a decimal number such as `-12.75` or `2.5e-3`.
pub fn parse_decimal(s: &str) -> (r: Option<Decimal>)
    ensures
        r == decimal_of(s@),
{
    let n = s.unicode_len();
    let first = if n > 0 { s.get_char(0) } else { ' ' };
    let signed = n > 0 && (first == '+' || first == '-');
    let start: usize = if signed { 1 } else { 0 };
    proof {
        if signed {
            assert(s@.skip(1) =~= s@.drop_first());
        } else {
            assert(s@.skip(0) =~= s@);
        }
    }
    match read_magnitude(s, start) {
        Some(v) => {
            let units: i64 = if signed && first == '-' { -(v.0 as i64) } else { v.0 as i64 };
            Some(Decimal { units, places: v.1 })
        },
        None => None,
    }
}

} // verus!
