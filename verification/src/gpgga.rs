//! Structured GPGGA decoder.
//!
//! A GPGGA sentence is decoded into exact fixed-point values: a
//! `Decimal` is `mantissa / 10^scale`, an `Angle` is
//! `num / (60 * 10^scale)` degrees, so that the degree-minute fields of
//! the sentence are carried without loss. A consumer that needs floating
//! point converts at its own edge.

use vstd::prelude::*;
use vstd::string::StrSliceExecFns;

verus! {

/// An exact decimal number: `mantissa / 10^scale`.
#[derive(Clone, Copy, Debug, PartialEq, Eq, Structural)]
pub struct Decimal {
    pub mantissa: i64,
    pub scale: usize,
}

/// An exact angle in degree-minute form: `num / (60 * 10^scale)` degrees.
#[derive(Clone, Copy, Debug, PartialEq, Eq, Structural)]
pub struct Angle {
    pub num: i64,
    pub scale: usize,
}

/// GPGGA fix quality, as the sixth field of the sentence reports it.
#[derive(Clone, Copy, Debug, PartialEq, Eq, Structural)]
pub enum GpggaStatus {
    Invalid,
    SinglePoint,
    Differential,
    Pps,
    RtkFixed,
    RtkFloat,
    DeadReckoning,
    ManualInput,
    Ppp,
}

/// Why a line failed to decode: it is another sentence type (benign), a
/// field is missing, or a field does not parse.
#[derive(Clone, Copy, Debug)]
pub enum GpggaParseError {
    WrongHead,
    LackOfField(&'static str),
    FailToParse(&'static str),
}

/// A decoded GPGGA sentence.
#[derive(Clone, Copy, Debug, PartialEq, Eq, Structural)]
pub struct Gpgga {
    pub utc: Decimal,
    pub latitude: Angle,
    pub longitude: Angle,
    pub status: GpggaStatus,
    pub satellite: u8,
    pub hdop: Decimal,
    pub altitude: Decimal,
    pub altitude_error: Decimal,
}

/// `c` is an ASCII decimal digit.
pub open spec fn is_digit(c: char) -> bool {
    48 <= c as u32 <= 57
}

/// Numeric value of the digit `c`.
pub open spec fn digit_val(c: char) -> int {
    c as u32 - 48
}

/// Every character of `s` is a digit.
pub open spec fn all_digits(s: Seq<char>) -> bool {
    forall|i: int| 0 <= i < s.len() ==> is_digit(#[trigger] s[i])
}

/// The number that the digit string `s` writes.
pub open spec fn digits_val(s: Seq<char>) -> int
    decreases s.len(),
{
    if s.len() == 0 {
        0
    } else {
        digits_val(s.drop_last()) * 10 + digit_val(s.last())
    }
}

/// `10^n`.
pub open spec fn pow10(n: nat) -> int
    decreases n,
{
    if n == 0 {
        1
    } else {
        10 * pow10((n - 1) as nat)
    }
}

proof fn lemma_pow10_pos(n: nat)
    ensures
        pow10(n) >= 1,
    decreases n,
{
    if n > 0 {
        lemma_pow10_pos((n - 1) as nat);
    }
}

proof fn lemma_digits_val_nonneg(s: Seq<char>)
    requires
        all_digits(s),
    ensures
        digits_val(s) >= 0,
    decreases s.len(),
{
    if s.len() > 0 {
        assert(all_digits(s.drop_last()));
        lemma_digits_val_nonneg(s.drop_last());
    }
}

proof fn lemma_digits_val_concat(s: Seq<char>, t: Seq<char>)
    ensures
        digits_val(s + t) == digits_val(s) * pow10(t.len()) + digits_val(t),
    decreases t.len(),
{
    if t.len() == 0 {
        assert(s + t =~= s);
    } else {
        let t0 = t.drop_last();
        lemma_digits_val_concat(s, t0);
        assert((s + t).drop_last() =~= s + t0);
        assert((s + t).last() == t.last());
        assert(digits_val(s + t) == (digits_val(s) * pow10(t0.len()) + digits_val(t0)) * 10
            + digit_val(t.last())) by {
            assert(digits_val(s + t) == digits_val((s + t).drop_last()) * 10 + digit_val(
                (s + t).last(),
            ));
        }
        assert(pow10(t.len()) == 10 * pow10(t0.len()));
        assert((digits_val(s) * pow10(t0.len())) * 10 == digits_val(s) * (10 * pow10(
            t0.len(),
        ))) by (nonlinear_arith);
    }
}

/// A digit string is worth at least any of its prefixes.
proof fn lemma_digits_val_prefix(s: Seq<char>, k: int)
    requires
        all_digits(s),
        0 <= k <= s.len(),
    ensures
        digits_val(s) >= digits_val(s.take(k)),
{
    let pre = s.take(k);
    let suf = s.skip(k);
    assert(s =~= pre + suf);
    lemma_digits_val_concat(pre, suf);
    assert(all_digits(pre));
    assert(all_digits(suf));
    lemma_digits_val_nonneg(pre);
    lemma_digits_val_nonneg(suf);
    lemma_pow10_pos(suf.len());
    assert(digits_val(pre) * pow10(suf.len()) >= digits_val(pre) * 1) by (nonlinear_arith)
        requires
            digits_val(pre) >= 0,
            pow10(suf.len()) >= 1,
    ;
}

/// Index of the first `.` of `s` at or after `i`; `s.len()` if none.
pub open spec fn first_dot_at(s: Seq<char>, i: int) -> int
    recommends
        0 <= i <= s.len(),
    decreases s.len() - i,
{
    if i < 0 || i >= s.len() {
        s.len() as int
    } else if s[i] == '.' {
        i
    } else {
        first_dot_at(s, i + 1)
    }
}

/// Index of the first `.` of `s`, or `s.len()` if it has none.
pub open spec fn first_dot(s: Seq<char>) -> int {
    first_dot_at(s, 0)
}

/// The largest mantissa a `Decimal` carries.
pub open spec fn max_mantissa() -> int {
    0x7fff_ffff_ffff_ffff
}

/// Exact value of a plain decimal field: an optional sign, digits with at
/// most one point, at least one digit. Yields the signed mantissa and the
/// number of fraction digits.
pub open spec fn spec_decimal(s: Seq<char>) -> Option<(int, nat)> {
    let neg = s.len() > 0 && s[0] == '-';
    let t = if s.len() > 0 && (s[0] == '-' || s[0] == '+') {
        s.skip(1)
    } else {
        s
    };
    let p = first_dot(t);
    if p == t.len() {
        if t.len() > 0 && all_digits(t) {
            Some((if neg { -digits_val(t) } else { digits_val(t) }, 0nat))
        } else {
            None
        }
    } else {
        let ip = t.take(p);
        let fp = t.skip(p + 1);
        if all_digits(ip) && all_digits(fp) && ip.len() + fp.len() > 0 {
            let m = digits_val(ip + fp);
            Some(((if neg { -m } else { m }), fp.len()))
        } else {
            None
        }
    }
}

/// What `parse_decimal` returns: the exact value when it is in range,
/// `None` when the field is malformed or its mantissa does not fit.
pub open spec fn spec_decimal_fit(s: Seq<char>) -> Option<Decimal> {
    match spec_decimal(s) {
        Some((m, sc)) => {
            if -max_mantissa() <= m <= max_mantissa() && sc <= usize::MAX {
                Some(Decimal { mantissa: m as i64, scale: sc as usize })
            } else {
                None
            }
        },
        None => None,
    }
}

/// Accumulate one more digit: `acc * 10 + d`, or `None` on overflow of
/// the mantissa range.
fn push_digit(acc: u64, d: u64) -> (r: Option<u64>)
    requires
        acc <= 0x7fff_ffff_ffff_ffff,
        d <= 9,
    ensures
        match r {
            Some(v) => v == acc * 10 + d && v <= 0x7fff_ffff_ffff_ffff,
            None => acc * 10 + d > 0x7fff_ffff_ffff_ffff,
        },
{
    let limit: u64 = 0x7fff_ffff_ffff_ffff;
    if acc > (limit - d) / 10 {
        proof {
            assert(acc * 10 + d > limit) by (nonlinear_arith)
                requires
                    acc > (limit - d) / 10,
                    0 <= d <= 9,
                    limit == 0x7fff_ffff_ffff_ffff,
            ;
        }
        None
    } else {
        proof {
            assert(acc * 10 + d <= limit) by (nonlinear_arith)
                requires
                    acc <= (limit - d) / 10,
                    0 <= d <= 9,
                    limit == 0x7fff_ffff_ffff_ffff,
            ;
        }
        Some(acc * 10 + d)
    }
}

/// Value of the digit run `f[a..b]`, or `None` when it exceeds the
/// mantissa range.
fn digits_value(f: &[char], a: usize, b: usize) -> (r: Option<u64>)
    requires
        a <= b <= f@.len(),
        all_digits(f@.subrange(a as int, b as int)),
    ensures
        match r {
            Some(v) => v == digits_val(f@.subrange(a as int, b as int)) && v
                <= 0x7fff_ffff_ffff_ffff,
            None => digits_val(f@.subrange(a as int, b as int)) > 0x7fff_ffff_ffff_ffff,
        },
{
    let ghost whole = f@.subrange(a as int, b as int);
    let mut acc: u64 = 0;
    let mut k = a;
    while k < b
        invariant
            a <= k <= b <= f@.len(),
            all_digits(whole),
            whole == f@.subrange(a as int, b as int),
            acc == digits_val(whole.take(k - a)),
            acc <= 0x7fff_ffff_ffff_ffff,
        decreases b - k,
    {
        let c = f[k];
        proof {
            assert(whole[k - a] == f@[k as int]);
            assert(is_digit(whole[k - a]));
        }
        let u: u32 = c as u32;
        let d: u64 = (u - 48) as u64;
        proof {
            let pre = whole.take(k - a);
            let nxt = whole.take(k - a + 1);
            assert(nxt.drop_last() =~= pre);
            assert(nxt.last() == whole[k - a]);
            assert(digit_val(whole[k - a]) == d);
        }
        match push_digit(acc, d) {
            Some(v) => {
                acc = v;
            },
            None => {
                proof {
                    lemma_digits_val_prefix(whole, k - a + 1);
                }
                return None;
            },
        }
        k += 1;
    }
    proof {
        assert(whole.take(b - a) =~= whole);
    }
    Some(acc)
}

/// Scan `f[from..]` for grammar: every character a digit, except at most
/// one `.`, whose index is returned; `f.len()` if none; `None` when a
/// character is neither.
fn scan_digits_and_dot(f: &[char], from: usize) -> (r: Option<usize>)
    requires
        from <= f@.len(),
    ensures
        match r {
            Some(p) => {
                &&& from <= p <= f@.len()
                &&& p == first_dot_at(f@, from as int)
                &&& all_digits(f@.subrange(from as int, p as int))
                &&& (p < f@.len() ==> f@[p as int] == '.' && all_digits(
                    f@.subrange(p + 1, f@.len() as int),
                ))
            },
            None => {
                let p = first_dot_at(f@, from as int);
                !(all_digits(f@.subrange(from as int, p as int)) && (p < f@.len()
                    ==> all_digits(f@.subrange(p + 1, f@.len() as int))))
            },
        },
{
    let n = f.len();
    let mut k = from;
    while k < n
        invariant
            from <= k <= n == f@.len(),
            all_digits(f@.subrange(from as int, k as int)),
            first_dot_at(f@, from as int) == first_dot_at(f@, k as int),
        decreases n - k,
    {
        let c = f[k];
        let u: u32 = c as u32;
        if c == '.' {
            // the first dot; the rest must be digits
            let p = k;
            let mut k2 = p + 1;
            while k2 < n
                invariant
                    from <= p < k2 <= n == f@.len(),
                    p == first_dot_at(f@, from as int),
                    f@[p as int] == '.',
                    all_digits(f@.subrange(from as int, p as int)),
                    all_digits(f@.subrange(p + 1, k2 as int)),
                decreases n - k2,
            {
                let c2 = f[k2];
                let u2: u32 = c2 as u32;
                if !(48 <= u2 && u2 <= 57) {
                    proof {
                        let rest = f@.subrange(p + 1, f@.len() as int);
                        assert(rest[k2 - p - 1] == f@[k2 as int]);
                        assert(!is_digit(rest[k2 - p - 1]));
                    }
                    return None;
                }
                proof {
                    assert(is_digit(f@[k2 as int]));
                    assert forall|i: int| 0 <= i < k2 + 1 - p - 1 implies is_digit(
                        #[trigger] f@.subrange(p + 1, k2 + 1)[i],
                    ) by {
                        if i < k2 - p - 1 {
                            assert(f@.subrange(p + 1, k2 + 1)[i] == f@.subrange(
                                p + 1,
                                k2 as int,
                            )[i]);
                        } else {
                            assert(f@.subrange(p + 1, k2 + 1)[i] == f@[k2 as int]);
                        }
                    }
                }
                k2 += 1;
            }
            proof {
                assert(f@.subrange(p + 1, f@.len() as int) =~= f@.subrange(p + 1, k2 as int));
            }
            return Some(p);
        }
        if !(48 <= u && u <= 57) {
            proof {
                lemma_first_dot_ge(f@, k as int);
                let p = first_dot_at(f@, from as int);
                if p > k {
                    let pre = f@.subrange(from as int, p as int);
                    assert(pre[k - from] == f@[k as int]);
                    assert(!is_digit(pre[k - from]));
                }
            }
            return None;
        }
        proof {
            assert(is_digit(f@[k as int]));
            assert forall|i: int| 0 <= i < k + 1 - from implies is_digit(
                #[trigger] f@.subrange(from as int, k + 1)[i],
            ) by {
                if i < k - from {
                    assert(f@.subrange(from as int, k + 1)[i] == f@.subrange(
                        from as int,
                        k as int,
                    )[i]);
                } else {
                    assert(f@.subrange(from as int, k + 1)[i] == f@[k as int]);
                }
            }
        }
        k += 1;
    }
    Some(n)
}

proof fn lemma_first_dot_ge(s: Seq<char>, i: int)
    requires
        0 <= i <= s.len(),
    ensures
        i <= first_dot_at(s, i) <= s.len(),
        forall|j: int| i <= j < first_dot_at(s, i) ==> s[j] != '.',
        first_dot_at(s, i) < s.len() ==> s[first_dot_at(s, i)] == '.',
    decreases s.len() - i,
{
    if i < s.len() && s[i] != '.' {
        lemma_first_dot_ge(s, i + 1);
    }
}

/// Combine the integer and fraction digit runs into one mantissa:
/// `hi * 10^width + lo`, or `None` when it exceeds the mantissa range.
fn combine_digits(
    hi: u64,
    lo: u64,
    width: usize,
    Ghost(ip): Ghost<Seq<char>>,
    Ghost(fp): Ghost<Seq<char>>,
) -> (r: Option<u64>)
    requires
        all_digits(ip),
        all_digits(fp),
        hi == digits_val(ip),
        lo == digits_val(fp),
        hi <= 0x7fff_ffff_ffff_ffff,
        lo <= 0x7fff_ffff_ffff_ffff,
        width == fp.len(),
    ensures
        match r {
            Some(v) => v == digits_val(ip + fp) && v <= 0x7fff_ffff_ffff_ffff,
            None => digits_val(ip + fp) > 0x7fff_ffff_ffff_ffff,
        },
{
    proof {
        lemma_digits_val_concat(ip, fp);
        lemma_digits_val_nonneg(ip);
        lemma_digits_val_nonneg(fp);
    }
    let mut acc: u64 = hi;
    let mut j: usize = 0;
    while j < width
        invariant
            j <= width,
            acc == digits_val(ip) * pow10(j as nat),
            acc <= 0x7fff_ffff_ffff_ffff,
            digits_val(ip) >= 0,
            digits_val(fp) >= 0,
            digits_val(ip + fp) == digits_val(ip) * pow10(width as nat) + digits_val(fp),
            width == fp.len(),
        decreases width - j,
    {
        match push_digit(acc, 0) {
            Some(v) => {
                proof {
                    assert(pow10((j + 1) as nat) == 10 * pow10(j as nat));
                    assert(digits_val(ip) * (10 * pow10(j as nat)) == (digits_val(ip) * pow10(
                        j as nat,
                    )) * 10) by (nonlinear_arith);
                }
                acc = v;
            },
            None => {
                proof {
                    assert((digits_val(ip) * pow10(j as nat)) * 10 == digits_val(ip) * 10 * pow10(
                        j as nat,
                    )) by (nonlinear_arith);
                    lemma_mantissa_grows(digits_val(ip), j as nat, width as nat);
                }
                return None;
            },
        }
        j += 1;
    }
    if acc > 0x7fff_ffff_ffff_ffff - lo {
        return None;
    }
    Some(acc + lo)
}

/// Parse one plain decimal field, exactly as `spec_decimal_fit` states.
pub fn parse_decimal(f: &[char]) -> (r: Option<Decimal>)
    ensures
        r == spec_decimal_fit(f@),
{
    let n = f.len();
    let signed = if n > 0 {
        let c0 = f[0];
        c0 == '-' || c0 == '+'
    } else {
        false
    };
    let neg = if n > 0 {
        f[0] == '-'
    } else {
        false
    };
    let start: usize = if signed {
        1
    } else {
        0
    };
    let ghost t = if signed {
        f@.skip(1)
    } else {
        f@
    };
    proof {
        assert(t =~= f@.subrange(start as int, n as int));
    }
    match scan_digits_and_dot(f, start) {
        None => {
            proof {
                lemma_dot_shift_at(f@, start as int, 0);
                lemma_first_dot_ge(f@, start as int);
                let pf = first_dot_at(f@, start as int);
                let tp = first_dot(t);
                assert(tp == pf - start);
                if tp == t.len() {
                    assert(t =~= f@.subrange(start as int, pf));
                } else {
                    assert(t.take(tp) =~= f@.subrange(start as int, pf));
                    assert(t.skip(tp + 1) =~= f@.subrange(pf + 1, f@.len() as int));
                }
                assert(spec_decimal(f@) is None);
            }
            None
        },
        Some(p) => {
            proof {
                lemma_dot_shift_at(f@, start as int, 0);
            }
            if p == n {
                // no dot: digits only
                if n - start == 0 {
                    proof {
                        assert(t.len() == 0);
                    }
                    return None;
                }
                proof {
                    assert(first_dot(t) == t.len());
                    assert(t =~= f@.subrange(start as int, p as int));
                }
                match digits_value(f, start, n) {
                    Some(v) => {
                        let m: i64 = if neg {
                            -(v as i64)
                        } else {
                            v as i64
                        };
                        proof {
                            assert(digits_val(t) == v);
                        }
                        Some(Decimal { mantissa: m, scale: 0 })
                    },
                    None => {
                        proof {
                            lemma_digits_val_nonneg(t);
                        }
                        None
                    },
                }
            } else {
                // one dot at p
                let ghost tp = first_dot(t);
                let ghost ip = t.take(tp);
                let ghost fp = t.skip(tp + 1);
                proof {
                    assert(tp == p - start);
                    assert(ip =~= f@.subrange(start as int, p as int));
                    assert(fp =~= f@.subrange(p + 1, n as int));
                }
                if n - start == 1 {
                    // the field is just "." (after any sign)
                    proof {
                        assert(ip.len() + fp.len() == 0);
                    }
                    return None;
                }
                let ghost digits = ip + fp;
                proof {
                    assert(all_digits(digits)) by {
                        assert(forall|i: int|
                            0 <= i < digits.len() ==> is_digit(#[trigger] digits[i]));
                    }
                }
                let hi = match digits_value(f, start, p) {
                    Some(v) => v,
                    None => {
                        proof {
                            lemma_digits_val_prefix(digits, ip.len() as int);
                            assert(digits.take(ip.len() as int) =~= ip);
                            lemma_digits_val_nonneg(digits);
                        }
                        return None;
                    },
                };
                let lo = match digits_value(f, p + 1, n) {
                    Some(v) => v,
                    None => {
                        proof {
                            lemma_digits_val_concat(ip, fp);
                            lemma_digits_val_nonneg(ip);
                            lemma_pow10_pos(fp.len());
                            assert(digits_val(ip) * pow10(fp.len()) >= 0) by (nonlinear_arith)
                                requires
                                    digits_val(ip) >= 0,
                                    pow10(fp.len()) >= 1,
                            ;
                        }
                        return None;
                    },
                };
                // combine: value = hi * 10^|fp| + lo
                let width = n - (p + 1);
                let total = match combine_digits(hi, lo, width, Ghost(ip), Ghost(fp)) {
                    Some(v) => v,
                    None => {
                        proof {
                            assert(spec_decimal_fit(f@) is None);
                        }
                        return None;
                    },
                };
                let m: i64 = if neg {
                    -(total as i64)
                } else {
                    total as i64
                };
                let scale = width;
                Some(Decimal { mantissa: m, scale })
            }
        },
    }
}

/// When `d * 10^j` already overflows at step `j <= sc`, the full mantissa
/// `d * 10^sc + rest` overflows too.
proof fn lemma_mantissa_grows(d: int, j: nat, sc: nat)
    requires
        0 <= d,
        j < sc,
        d * 10 * pow10(j) > max_mantissa(),
    ensures
        d * pow10(sc) > max_mantissa(),
{
    assert(d * 10 * pow10(j) == d * pow10(j + 1)) by (nonlinear_arith)
        requires
            pow10(j + 1) == 10 * pow10(j),
    ;
    lemma_pow10_mono(d, (j + 1) as nat, sc);
}

proof fn lemma_pow10_mono(d: int, a: nat, b: nat)
    requires
        0 <= d,
        a <= b,
        d * pow10(a) > max_mantissa(),
    ensures
        d * pow10(b) > max_mantissa(),
    decreases b - a,
{
    if a < b {
        let c = (b - 1) as nat;
        lemma_pow10_mono(d, a, c);
        lemma_pow10_pos(c);
        assert(d * pow10(b) == (d * pow10(c)) * 10) by (nonlinear_arith)
            requires
                pow10(b) == 10 * pow10(c),
        ;
        assert((d * pow10(c)) * 10 >= d * pow10(c)) by (nonlinear_arith)
            requires
                d * pow10(c) > 0,
        ;
    }
}

/// The first dot seen from the subrange `s[a..]`, at offset `j`, is the
/// first dot of `s` at `a + j`, shifted.
proof fn lemma_dot_shift_at(s: Seq<char>, a: int, j: int)
    requires
        0 <= a,
        0 <= j,
        a + j <= s.len(),
    ensures
        first_dot_at(s.skip(a), j) == first_dot_at(s, a + j) - a,
    decreases s.len() - a - j,
{
    let t = s.skip(a);
    if a + j == s.len() {
    } else if t[j] == '.' {
    } else {
        lemma_dot_shift_at(s, a, j + 1);
    }
}


/// `a * b` is at least `a` when `b >= 1` and `a >= 0`.
proof fn lemma_mul_ge(a: int, b: int)
    by (nonlinear_arith)
    requires
        a >= 0,
        b >= 1,
    ensures
        a * b >= a,
{
}

/// Index of the first comma of `s` at or after `i`; `s.len()` if none.
pub open spec fn first_comma_ch(s: Seq<char>, i: int) -> int
    recommends
        0 <= i <= s.len(),
    decreases s.len() - i,
{
    if i < 0 || i >= s.len() {
        s.len() as int
    } else if s[i] == ',' {
        i
    } else {
        first_comma_ch(s, i + 1)
    }
}

/// Exact value of a degree-minute field `d..dmm.mmm`: the digits before
/// the last two whole-number places are degrees (optionally signed), the
/// rest are minutes. Yields the signed degrees, the minutes mantissa and
/// the number of fraction digits.
pub open spec fn spec_degree(f: Seq<char>) -> Option<(int, int, nat)> {
    let p = first_dot(f);
    if p == f.len() || p < 2 {
        None
    } else {
        let dpart = f.take(p - 2);
        let dneg = dpart.len() > 0 && dpart[0] == '-';
        let dd = if dpart.len() > 0 && (dpart[0] == '-' || dpart[0] == '+') {
            dpart.skip(1)
        } else {
            dpart
        };
        let frac = f.skip(p + 1);
        if dd.len() > 0 && all_digits(dd) && is_digit(f[p - 2]) && is_digit(f[p - 1])
            && all_digits(frac) {
            let dv = if dneg {
                -digits_val(dd)
            } else {
                digits_val(dd)
            };
            Some((dv, digits_val(f.subrange(p - 2, p) + frac), frac.len()))
        } else {
            None
        }
    }
}

/// What `parse_degree` returns: `num = degrees * 60 * 10^scale + minutes
/// mantissa`, when every step of that computation stays in the mantissa
/// range.
pub open spec fn spec_degree_fit(f: Seq<char>) -> Option<Angle> {
    match spec_degree(f) {
        Some((dv, mv, sc)) => {
            let dmag = if dv < 0 { -dv } else { dv };
            let scaled = dmag * 60 * pow10(sc);
            if mv <= max_mantissa() && scaled <= max_mantissa() && (dv >= 0 ==> scaled + mv
                <= max_mantissa()) && sc <= usize::MAX {
                Some(
                    Angle {
                        num: (if dv < 0 { mv - scaled } else { scaled + mv }) as i64,
                        scale: sc as usize,
                    },
                )
            } else {
                None
            }
        },
        None => None,
    }
}

/// Index of the first `.` of `f`, or `f.len()` if it has none.
fn find_dot(f: &[char]) -> (p: usize)
    ensures
        p == first_dot(f@),
        p <= f@.len(),
        p < f@.len() ==> f@[p as int] == '.',
{
    let mut k: usize = 0;
    while k < f.len()
        invariant
            k <= f@.len(),
            first_dot(f@) == first_dot_at(f@, k as int),
        decreases f@.len() - k,
    {
        if f[k] == '.' {
            return k;
        }
        k += 1;
    }
    f.len()
}

/// Every character of `f[a..b]` is a digit.
fn check_digits(f: &[char], a: usize, b: usize) -> (r: bool)
    requires
        a <= b <= f@.len(),
    ensures
        r == all_digits(f@.subrange(a as int, b as int)),
{
    let mut k = a;
    while k < b
        invariant
            a <= k <= b <= f@.len(),
            all_digits(f@.subrange(a as int, k as int)),
        decreases b - k,
    {
        let c = f[k];
        let u: u32 = c as u32;
        if !(48 <= u && u <= 57) {
            proof {
                let whole = f@.subrange(a as int, b as int);
                assert(whole[k - a] == f@[k as int]);
                assert(!is_digit(whole[k - a]));
            }
            return false;
        }
        proof {
            assert(is_digit(f@[k as int]));
            assert forall|i: int| 0 <= i < k + 1 - a implies is_digit(
                #[trigger] f@.subrange(a as int, k + 1)[i],
            ) by {
                if i < k - a {
                    assert(f@.subrange(a as int, k + 1)[i] == f@.subrange(a as int, k as int)[i]);
                } else {
                    assert(f@.subrange(a as int, k + 1)[i] == f@[k as int]);
                }
            }
        }
        k += 1;
    }
    proof {
        assert(f@.subrange(a as int, b as int) =~= f@.subrange(a as int, k as int));
    }
    true
}

/// Parse one degree-minute field, exactly as `spec_degree_fit` states.
#[verifier::loop_isolation(false)]
#[verifier::rlimit(60)]
pub fn parse_degree(f: &[char]) -> (r: Option<Angle>)
    ensures
        r == spec_degree_fit(f@),
        r matches Some(a) ==> -max_mantissa() <= a.num <= max_mantissa(),
{
    let n = f.len();
    let p = find_dot(f);
    if p == n || p < 2 {
        return None;
    }
    // the degrees part, before the last two whole-number places
    let dsigned = {
        let c0 = f[0];
        p - 2 > 0 && (c0 == '-' || c0 == '+')
    };
    let dneg = {
        let c0 = f[0];
        p - 2 > 0 && c0 == '-'
    };
    let dstart: usize = if dsigned {
        1
    } else {
        0
    };
    let ghost dpart = f@.take(p - 2);
    let ghost dd = if dsigned {
        dpart.skip(1)
    } else {
        dpart
    };
    proof {
        assert(dpart.len() > 0 ==> dpart[0] == f@[0]);
        assert(dd =~= f@.subrange(dstart as int, p - 2));
    }
    if p - 2 - dstart == 0 {
        proof {
            assert(dd.len() == 0);
        }
        return None;
    }
    if !check_digits(f, dstart, p - 2) {
        return None;
    }
    // the two whole minute digits and the fraction
    let c1 = f[p - 2];
    let u1: u32 = c1 as u32;
    if !(48 <= u1 && u1 <= 57) {
        return None;
    }
    let c2 = f[p - 1];
    let u2: u32 = c2 as u32;
    if !(48 <= u2 && u2 <= 57) {
        return None;
    }
    if !check_digits(f, p + 1, n) {
        return None;
    }
    let ghost frac = f@.skip(p + 1);
    let ghost mm = f@.subrange(p - 2, p as int);
    proof {
        assert(frac =~= f@.subrange(p + 1, n as int));
        assert(all_digits(mm)) by {
            assert(mm[0] == f@[p - 2] && mm[1] == f@[p - 1]);
        }
        assert(all_digits(frac));
    }
    // degrees magnitude
    let dmag = match digits_value(f, dstart, p - 2) {
        Some(v) => v,
        None => {
            proof {
                lemma_digits_val_nonneg(dd);
                lemma_pow10_pos(frac.len());
                lemma_mul_ge(digits_val(dd) * 60, pow10(frac.len()));
                assert(digits_val(dd) * 60 >= digits_val(dd)) by (nonlinear_arith)
                    requires
                        digits_val(dd) >= 0,
                ;
            }
            return None;
        },
    };
    // minutes mantissa
    let hi2 = match digits_value(f, p - 2, p) {
        Some(v) => v,
        None => {
            proof {
                lemma_digits_val_2(mm);
            }
            return None;
        },
    };
    let lo2 = match digits_value(f, p + 1, n) {
        Some(v) => v,
        None => {
            proof {
                lemma_digits_val_concat(mm, frac);
                lemma_digits_val_nonneg(mm);
                lemma_pow10_pos(frac.len());
                assert(digits_val(mm) * pow10(frac.len()) >= 0) by (nonlinear_arith)
                    requires
                        digits_val(mm) >= 0,
                        pow10(frac.len()) >= 1,
                ;
            }
            return None;
        },
    };
    let mv = match combine_digits(hi2, lo2, n - (p + 1), Ghost(mm), Ghost(frac)) {
        Some(v) => v,
        None => {
            return None;
        },
    };
    // degrees scaled into sixtieths of the minutes resolution
    let limit: u64 = 0x7fff_ffff_ffff_ffff;
    if dmag > limit / 60 {
        proof {
            lemma_digits_val_nonneg(dd);
            assert(dmag * 60 > limit) by (nonlinear_arith)
                requires
                    dmag > limit / 60,
                    limit == 0x7fff_ffff_ffff_ffff,
            ;
            lemma_pow10_pos(frac.len());
            lemma_mul_ge(digits_val(dd) * 60, pow10(frac.len()));
        }
        return None;
    }
    let s60: u64 = dmag * 60;
    proof {
        assert(dmag * 60 <= limit) by (nonlinear_arith)
            requires
                dmag <= limit / 60,
                limit == 0x7fff_ffff_ffff_ffff,
        ;
    }
    let width = n - (p + 1);
    let mut scaled: u64 = s60;
    let mut j: usize = 0;
    while j < width
        invariant
            j <= width,
            width == frac.len(),
            scaled == (s60 as int) * pow10(j as nat),
            scaled <= 0x7fff_ffff_ffff_ffff,
            s60 == dmag * 60,
            dmag == digits_val(dd),
            digits_val(dd) >= 0,
        decreases width - j,
    {
        match push_digit(scaled, 0) {
            Some(v) => {
                proof {
                    assert(pow10((j + 1) as nat) == 10 * pow10(j as nat));
                    assert((s60 as int) * (10 * pow10(j as nat)) == ((s60 as int) * pow10(
                        j as nat,
                    )) * 10) by (nonlinear_arith);
                }
                scaled = v;
            },
            None => {
                proof {
                    assert(((s60 as int) * pow10(j as nat)) * 10 == (s60 as int) * 10 * pow10(
                        j as nat,
                    )) by (nonlinear_arith);
                    lemma_mantissa_grows(s60 as int, j as nat, width as nat);
                    assert((s60 as int) * pow10(frac.len()) > max_mantissa());
                    assert(digits_val(dd) * 60 * pow10(frac.len()) > max_mantissa());
                    assert(spec_degree_fit(f@) is None);
                }
                return None;
            },
        }
        j += 1;
    }
    proof {
        // align the spec's signed reading of the degrees with the
        // computed magnitude
        let dv = if dneg {
            -digits_val(dd)
        } else {
            digits_val(dd)
        };
        let dmg = if dv < 0 {
            -dv
        } else {
            dv
        };
        assert(spec_degree(f@) == Some((dv, digits_val(mm + frac), frac.len())));
        assert(dmg == digits_val(dd) || digits_val(dd) == 0);
        assert(dmg * 60 * pow10(frac.len()) == scaled as int) by {
            assert(dmg == digits_val(dd) || (dmg == 0 && digits_val(dd) == 0));
        }
    }
    if dneg {
        let num: i64 = mv as i64 - scaled as i64;
        Some(Angle { num, scale: width })
    } else {
        if scaled > limit - mv {
            return None;
        }
        let num: i64 = (scaled + mv) as i64;
        Some(Angle { num, scale: width })
    }
}

/// A two-digit string is worth at most 99.
proof fn lemma_digits_val_2(s: Seq<char>)
    requires
        s.len() == 2,
        all_digits(s),
    ensures
        0 <= digits_val(s) <= 99,
{
    assert(s.drop_last().len() == 1);
    assert(s.drop_last().drop_last().len() == 0);
    assert(digits_val(s.drop_last().drop_last()) == 0);
    assert(digits_val(s.drop_last()) == digit_val(s.drop_last().last()));
    assert(is_digit(s[0]) && is_digit(s[1]));
    assert(s.drop_last().last() == s[0]);
}

/// Exact value of an unsigned byte field: an optional `+`, then digits,
/// worth at most 255.
pub open spec fn spec_u8(s: Seq<char>) -> Option<u8> {
    let t = if s.len() > 0 && s[0] == '+' {
        s.skip(1)
    } else {
        s
    };
    if t.len() > 0 && all_digits(t) && digits_val(t) <= 255 {
        Some(digits_val(t) as u8)
    } else {
        None
    }
}

/// Parse one unsigned byte field, exactly as `spec_u8` states.
#[verifier::loop_isolation(false)]
pub fn parse_u8_field(f: &[char]) -> (r: Option<u8>)
    ensures
        r == spec_u8(f@),
{
    let n = f.len();
    let plus = if n > 0 {
        f[0] == '+'
    } else {
        false
    };
    let start: usize = if plus {
        1
    } else {
        0
    };
    let ghost t = if plus {
        f@.skip(1)
    } else {
        f@
    };
    proof {
        assert(t =~= f@.subrange(start as int, n as int));
    }
    if n - start == 0 {
        return None;
    }
    let mut acc: u32 = 0;
    let mut k = start;
    while k < n
        invariant
            start <= k <= n == f@.len(),
            t == f@.subrange(start as int, n as int),
            t.len() == n - start,
            all_digits(t.take(k - start)),
            acc == digits_val(t.take(k - start)),
            acc <= 255,
        decreases n - k,
    {
        let c = f[k];
        let u: u32 = c as u32;
        if !(48 <= u && u <= 57) {
            proof {
                assert(t[k - start] == f@[k as int]);
                assert(!is_digit(t[k - start]));
                assert(!all_digits(t));
                assert(spec_u8(f@) is None);
            }
            return None;
        }
        let d: u32 = u - 48;
        proof {
            let pre = t.take(k - start);
            let nxt = t.take(k - start + 1);
            assert(nxt.drop_last() =~= pre);
            assert(nxt.last() == t[k - start]);
            assert(t[k - start] == f@[k as int]);
            assert(is_digit(t[k - start]));
            assert(forall|i: int| 0 <= i < nxt.len() ==> is_digit(#[trigger] nxt[i]));
        }
        let next: u32 = acc * 10 + d;
        if next > 255 {
            proof {
                if all_digits(t) {
                    lemma_digits_val_prefix(t, k - start + 1);
                    assert(digits_val(t) > 255);
                }
                assert(spec_u8(f@) is None);
            }
            return None;
        }
        acc = next;
        k += 1;
    }
    proof {
        assert(t.take(n - start) =~= t);
    }
    Some(acc as u8)
}

/// What `GpggaStatus::from_str` returns: the fix-quality code `0..=8`.
pub open spec fn spec_status(s: Seq<char>) -> Result<GpggaStatus, ()> {
    match spec_u8(s) {
        Some(v) => {
            if v == 0 {
                Ok(GpggaStatus::Invalid)
            } else if v == 1 {
                Ok(GpggaStatus::SinglePoint)
            } else if v == 2 {
                Ok(GpggaStatus::Differential)
            } else if v == 3 {
                Ok(GpggaStatus::Pps)
            } else if v == 4 {
                Ok(GpggaStatus::RtkFixed)
            } else if v == 5 {
                Ok(GpggaStatus::RtkFloat)
            } else if v == 6 {
                Ok(GpggaStatus::DeadReckoning)
            } else if v == 7 {
                Ok(GpggaStatus::ManualInput)
            } else if v == 8 {
                Ok(GpggaStatus::Ppp)
            } else {
                Err(())
            }
        },
        None => Err(()),
    }
}

/// The characters of `s`, as an owned vector.
pub fn str_chars(s: &str) -> (v: Vec<char>)
    ensures
        v@ == s@,
{
    let n = s.unicode_len();
    let mut v: Vec<char> = Vec::new();
    let mut i: usize = 0;
    while i < n
        invariant
            i <= n,
            n == s@.len(),
            v@ == s@.take(i as int),
        decreases n - i,
    {
        let c = s.get_char(i);
        v.push(c);
        proof {
            assert(v@ =~= s@.take(i + 1));
        }
        i += 1;
    }
    proof {
        assert(s@.take(n as int) =~= s@);
    }
    v
}

impl GpggaStatus {
    /// Decode the fix-quality code `0..=8`, exactly as `spec_status`
    /// states.
    pub fn from_str(s: &str) -> (r: Result<GpggaStatus, ()>)
        ensures
            r == spec_status(s@),
    {
        let cs = str_chars(s);
        match parse_u8_field(cs.as_slice()) {
            Some(v) => {
                if v == 0 {
                    Ok(GpggaStatus::Invalid)
                } else if v == 1 {
                    Ok(GpggaStatus::SinglePoint)
                } else if v == 2 {
                    Ok(GpggaStatus::Differential)
                } else if v == 3 {
                    Ok(GpggaStatus::Pps)
                } else if v == 4 {
                    Ok(GpggaStatus::RtkFixed)
                } else if v == 5 {
                    Ok(GpggaStatus::RtkFloat)
                } else if v == 6 {
                    Ok(GpggaStatus::DeadReckoning)
                } else if v == 7 {
                    Ok(GpggaStatus::ManualInput)
                } else if v == 8 {
                    Ok(GpggaStatus::Ppp)
                } else {
                    Err(())
                }
            },
            None => Err(()),
        }
    }
}

impl Default for GpggaStatus {
    /// The default fix quality: no fix.
    fn default() -> (r: Self)
        ensures
            r == GpggaStatus::Invalid,
    {
        GpggaStatus::Invalid
    }
}

/// The fields of `s`, split on commas, built left to right: a comma ends
/// the field before it, every other character extends the last field.
pub open spec fn split_fields(s: Seq<char>) -> Seq<Seq<char>>
    decreases s.len(),
{
    if s.len() == 0 {
        seq![Seq::<char>::empty()]
    } else if s.last() == ',' {
        split_fields(s.drop_last()).push(Seq::<char>::empty())
    } else {
        let fs = split_fields(s.drop_last());
        fs.update(fs.len() - 1, fs.last().push(s.last()))
    }
}

proof fn lemma_split_fields_len(s: Seq<char>)
    ensures
        split_fields(s).len() >= 1,
    decreases s.len(),
{
    if s.len() > 0 {
        lemma_split_fields_len(s.drop_last());
    }
}

/// The views of a vector of fields.
pub open spec fn field_views(fs: Seq<Vec<char>>) -> Seq<Seq<char>> {
    fs.map_values(|v: Vec<char>| v@)
}

/// The head every GPGGA sentence starts with.
pub open spec fn gpgga_prefix() -> Seq<char> {
    seq!['$', 'G', 'P', 'G', 'G', 'A', ',']
}

/// What `Gpgga::from_str` decodes from the characters `s`: `WrongHead`
/// for any other sentence type, otherwise the twelve leading fields in
/// order, each failure naming its field.
pub open spec fn spec_from_str(s: Seq<char>) -> Result<Gpgga, GpggaParseError> {
    if !(s.len() >= 7 && s.take(7) == gpgga_prefix()) {
        Err(GpggaParseError::WrongHead)
    } else {
        let fs = split_fields(s.skip(7));
        if fs.len() <= 0 {
            Err(GpggaParseError::LackOfField("utc"))
        } else {
            match spec_decimal_fit(fs[0]) {
                None => Err(GpggaParseError::FailToParse("utc")),
                Some(utc) => {
                    if fs.len() <= 1 {
                        Err(GpggaParseError::LackOfField("latitude"))
                    } else {
                        match spec_degree_fit(fs[1]) {
                            None => Err(GpggaParseError::FailToParse("latitude")),
                            Some(lat) => spec_from_lat_dir(s, fs, utc, lat),
                        }
                    }
                },
            }
        }
    }
}

pub open spec fn spec_from_lat_dir(
    s: Seq<char>,
    fs: Seq<Seq<char>>,
    utc: Decimal,
    lat0: Angle,
) -> Result<Gpgga, GpggaParseError> {
    if fs.len() <= 2 {
        Err(GpggaParseError::LackOfField("latitude_dir"))
    } else if !(fs[2] == seq!['N'] || fs[2] == seq!['S']) {
        Err(GpggaParseError::FailToParse("latitude_dir"))
    } else {
        let lat = if fs[2] == seq!['S'] {
            Angle { num: (-lat0.num) as i64, scale: lat0.scale }
        } else {
            lat0
        };
        if fs.len() <= 3 {
            Err(GpggaParseError::LackOfField("longitude"))
        } else {
            match spec_degree_fit(fs[3]) {
                None => Err(GpggaParseError::FailToParse("longitude")),
                Some(lon0) => spec_from_lon_dir(s, fs, utc, lat, lon0),
            }
        }
    }
}

pub open spec fn spec_from_lon_dir(
    s: Seq<char>,
    fs: Seq<Seq<char>>,
    utc: Decimal,
    lat: Angle,
    lon0: Angle,
) -> Result<Gpgga, GpggaParseError> {
    if fs.len() <= 4 {
        Err(GpggaParseError::LackOfField("longitude_dir"))
    } else if !(fs[4] == seq!['E'] || fs[4] == seq!['W']) {
        Err(GpggaParseError::FailToParse("longitude_dir"))
    } else {
        let lon = if fs[4] == seq!['W'] {
            Angle { num: (-lon0.num) as i64, scale: lon0.scale }
        } else {
            lon0
        };
        if fs.len() <= 5 {
            Err(GpggaParseError::LackOfField("status"))
        } else {
            match spec_status(fs[5]) {
                Err(_) => Err(GpggaParseError::FailToParse("status")),
                Ok(status) => spec_from_tail(s, fs, utc, lat, lon, status),
            }
        }
    }
}

pub open spec fn spec_from_tail(
    s: Seq<char>,
    fs: Seq<Seq<char>>,
    utc: Decimal,
    lat: Angle,
    lon: Angle,
    status: GpggaStatus,
) -> Result<Gpgga, GpggaParseError> {
    if fs.len() <= 6 {
        Err(GpggaParseError::LackOfField("satellite"))
    } else {
        match spec_u8(fs[6]) {
            None => Err(GpggaParseError::FailToParse("satellite")),
            Some(satellite) => {
                if fs.len() <= 7 {
                    Err(GpggaParseError::LackOfField("hdop"))
                } else {
                    match spec_decimal_fit(fs[7]) {
                        None => Err(GpggaParseError::FailToParse("hdop")),
                        Some(hdop) => {
                            if fs.len() <= 8 {
                                Err(GpggaParseError::LackOfField("altitude"))
                            } else {
                                match spec_decimal_fit(fs[8]) {
                                    None => Err(GpggaParseError::FailToParse("altitude")),
                                    Some(altitude) => {
                                        if fs.len() <= 9 {
                                            Err(GpggaParseError::LackOfField("altitude_unit"))
                                        } else if fs[9] != seq!['M'] {
                                            Err(GpggaParseError::FailToParse("altitude_unit"))
                                        } else if fs.len() <= 10 {
                                            Err(GpggaParseError::LackOfField("altitude_error"))
                                        } else {
                                            match spec_decimal_fit(fs[10]) {
                                                None => Err(
                                                    GpggaParseError::FailToParse("altitude_error"),
                                                ),
                                                Some(altitude_error) => {
                                                    if fs.len() <= 11 {
                                                        Err(
                                                            GpggaParseError::LackOfField(
                                                                "altitude_error_unit",
                                                            ),
                                                        )
                                                    } else if fs[11] != seq!['M'] {
                                                        Err(
                                                            GpggaParseError::FailToParse(
                                                                "altitude_error_unit",
                                                            ),
                                                        )
                                                    } else {
                                                        Ok(
                                                            Gpgga {
                                                                utc,
                                                                latitude: lat,
                                                                longitude: lon,
                                                                status,
                                                                satellite,
                                                                hdop,
                                                                altitude,
                                                                altitude_error,
                                                            },
                                                        )
                                                    }
                                                },
                                            }
                                        }
                                    },
                                }
                            }
                        },
                    }
                }
            },
        }
    }
}

/// Two parse errors agree: same kind, same field name.
pub open spec fn err_eq(a: GpggaParseError, b: GpggaParseError) -> bool {
    match (a, b) {
        (GpggaParseError::WrongHead, GpggaParseError::WrongHead) => true,
        (GpggaParseError::LackOfField(x), GpggaParseError::LackOfField(y)) => x@ == y@,
        (GpggaParseError::FailToParse(x), GpggaParseError::FailToParse(y)) => x@ == y@,
        _ => false,
    }
}

/// `r` is what `spec_from_str` decodes from `s`, comparing error field
/// names by their text.
pub open spec fn from_str_matches(r: Result<Gpgga, GpggaParseError>, s: Seq<char>) -> bool {
    match (r, spec_from_str(s)) {
        (Ok(g), Ok(h)) => g == h,
        (Err(a), Err(b)) => err_eq(a, b),
        _ => false,
    }
}


impl Gpgga {
    /// Decode a GPGGA sentence, exactly as `spec_from_str` states: any
    /// other head is `WrongHead`; otherwise the twelve leading fields are
    /// decoded in order and each failure names its field.
    #[verifier::loop_isolation(false)]
    #[verifier::rlimit(60)]
    pub fn from_str(s: &str) -> (r: Result<Gpgga, GpggaParseError>)
        ensures
            from_str_matches(r, s@),
    {
        let cs = str_chars(s);
        let n = cs.len();
        let head_ok = n >= 7 && cs[0] == '$' && cs[1] == 'G' && cs[2] == 'P' && cs[3] == 'G'
            && cs[4] == 'G' && cs[5] == 'A' && cs[6] == ',';
        if !head_ok {
            proof {
                if s@.len() >= 7 && s@.take(7) == gpgga_prefix() {
                    assert(s@.take(7)[0] == '$');
                    assert(s@.take(7)[1] == 'G');
                    assert(s@.take(7)[2] == 'P');
                    assert(s@.take(7)[3] == 'G');
                    assert(s@.take(7)[4] == 'G');
                    assert(s@.take(7)[5] == 'A');
                    assert(s@.take(7)[6] == ',');
                    assert(false);
                }
            }
            return Err(GpggaParseError::WrongHead);
        }
        proof {
            assert(s@.take(7) =~= gpgga_prefix());
        }
        let ghost body = s@.skip(7);
        let mut fields: Vec<Vec<char>> = Vec::new();
        let mut cur: Vec<char> = Vec::new();
        let mut i: usize = 7;
        proof {
            assert(body.subrange(0, 0) =~= Seq::<char>::empty());
            assert(field_views(fields@).push(cur@) =~= split_fields(body.subrange(0, 0)));
        }
        while i < n
            invariant
                7 <= i <= n,
                split_fields(body.subrange(0, i - 7)) == field_views(fields@).push(cur@),
            decreases n - i,
        {
            let c = cs[i];
            let ghost fields0 = fields@;
            let ghost cur0 = cur@;
            proof {
                let pre = body.subrange(0, i - 7);
                let nxt = body.subrange(0, i - 7 + 1);
                assert(nxt.drop_last() =~= pre);
                assert(nxt.last() == body[i - 7]);
                assert(body[i - 7] == s@[i as int]);
                assert(s@[i as int] == cs@[i as int]);
            }
            if c == ',' {
                fields.push(cur);
                cur = Vec::new();
                proof {
                    assert(field_views(fields@) =~= field_views(fields0).push(cur0));
                    assert(field_views(fields@).push(cur@) =~= split_fields(
                        body.subrange(0, i - 7 + 1),
                    ));
                }
            } else {
                cur.push(c);
                proof {
                    let pre = body.subrange(0, i - 7);
                    let sp = split_fields(pre);
                    assert(sp.last() == cur0);
                    assert(field_views(fields@).push(cur@) =~= sp.update(
                        sp.len() - 1,
                        sp.last().push(c),
                    ));
                }
            }
            i += 1;
        }
        let ghost fields1 = fields@;
        let ghost cur1 = cur@;
        fields.push(cur);
        let ghost fs = split_fields(body);
        proof {
            assert(body.subrange(0, n - 7) =~= body);
            assert(field_views(fields@) =~= field_views(fields1).push(cur1));
            assert(fs == field_views(fields@));
            assert(forall|k: int|
                0 <= k < fields@.len() ==> fs[k] == #[trigger] fields@[k]@);
        }
        if fields.len() <= 0 {
            return Err(GpggaParseError::LackOfField("utc"));
        }
        let utc = match parse_decimal(fields[0].as_slice()) {
            Some(d) => d,
            None => {
                return Err(GpggaParseError::FailToParse("utc"));
            },
        };
        if fields.len() <= 1 {
            return Err(GpggaParseError::LackOfField("latitude"));
        }
        let lat0 = match parse_degree(fields[1].as_slice()) {
            Some(a) => a,
            None => {
                return Err(GpggaParseError::FailToParse("latitude"));
            },
        };
        if fields.len() <= 2 {
            return Err(GpggaParseError::LackOfField("latitude_dir"));
        }
        let d2 = fields[2].as_slice();
        let is_n = d2.len() == 1 && d2[0] == 'N';
        let is_s = d2.len() == 1 && d2[0] == 'S';
        proof {
            if is_n {
                assert(fs[2] =~= seq!['N']);
            }
            if is_s {
                assert(fs[2] =~= seq!['S']);
            }
            if !is_n && fs[2] == seq!['N'] {
                assert(fs[2].len() == 1 && fs[2][0] == 'N');
                assert(false);
            }
            if !is_s && fs[2] == seq!['S'] {
                assert(fs[2].len() == 1 && fs[2][0] == 'S');
                assert(false);
            }
        }
        if !(is_n || is_s) {
            return Err(GpggaParseError::FailToParse("latitude_dir"));
        }
        let latitude = if is_s {
            Angle { num: -lat0.num, scale: lat0.scale }
        } else {
            lat0
        };
        if fields.len() <= 3 {
            return Err(GpggaParseError::LackOfField("longitude"));
        }
        let lon0 = match parse_degree(fields[3].as_slice()) {
            Some(a) => a,
            None => {
                return Err(GpggaParseError::FailToParse("longitude"));
            },
        };
        if fields.len() <= 4 {
            return Err(GpggaParseError::LackOfField("longitude_dir"));
        }
        let d4 = fields[4].as_slice();
        let is_e = d4.len() == 1 && d4[0] == 'E';
        let is_w = d4.len() == 1 && d4[0] == 'W';
        proof {
            if is_e {
                assert(fs[4] =~= seq!['E']);
            }
            if is_w {
                assert(fs[4] =~= seq!['W']);
            }
            if !is_e && fs[4] == seq!['E'] {
                assert(fs[4].len() == 1 && fs[4][0] == 'E');
                assert(false);
            }
            if !is_w && fs[4] == seq!['W'] {
                assert(fs[4].len() == 1 && fs[4][0] == 'W');
                assert(false);
            }
        }
        if !(is_e || is_w) {
            return Err(GpggaParseError::FailToParse("longitude_dir"));
        }
        let longitude = if is_w {
            Angle { num: -lon0.num, scale: lon0.scale }
        } else {
            lon0
        };
        if fields.len() <= 5 {
            return Err(GpggaParseError::LackOfField("status"));
        }
        let status = match parse_u8_field(fields[5].as_slice()) {
            Some(v) => {
                if v == 0 {
                    GpggaStatus::Invalid
                } else if v == 1 {
                    GpggaStatus::SinglePoint
                } else if v == 2 {
                    GpggaStatus::Differential
                } else if v == 3 {
                    GpggaStatus::Pps
                } else if v == 4 {
                    GpggaStatus::RtkFixed
                } else if v == 5 {
                    GpggaStatus::RtkFloat
                } else if v == 6 {
                    GpggaStatus::DeadReckoning
                } else if v == 7 {
                    GpggaStatus::ManualInput
                } else if v == 8 {
                    GpggaStatus::Ppp
                } else {
                    return Err(GpggaParseError::FailToParse("status"));
                }
            },
            None => {
                return Err(GpggaParseError::FailToParse("status"));
            },
        };
        if fields.len() <= 6 {
            return Err(GpggaParseError::LackOfField("satellite"));
        }
        let satellite = match parse_u8_field(fields[6].as_slice()) {
            Some(v) => v,
            None => {
                return Err(GpggaParseError::FailToParse("satellite"));
            },
        };
        if fields.len() <= 7 {
            return Err(GpggaParseError::LackOfField("hdop"));
        }
        let hdop = match parse_decimal(fields[7].as_slice()) {
            Some(d) => d,
            None => {
                return Err(GpggaParseError::FailToParse("hdop"));
            },
        };
        if fields.len() <= 8 {
            return Err(GpggaParseError::LackOfField("altitude"));
        }
        let altitude = match parse_decimal(fields[8].as_slice()) {
            Some(d) => d,
            None => {
                return Err(GpggaParseError::FailToParse("altitude"));
            },
        };
        if fields.len() <= 9 {
            return Err(GpggaParseError::LackOfField("altitude_unit"));
        }
        let d9 = fields[9].as_slice();
        let is_m9 = d9.len() == 1 && d9[0] == 'M';
        proof {
            if is_m9 {
                assert(fs[9] =~= seq!['M']);
            }
            if !is_m9 && fs[9] == seq!['M'] {
                assert(fs[9].len() == 1 && fs[9][0] == 'M');
                assert(false);
            }
        }
        if !is_m9 {
            return Err(GpggaParseError::FailToParse("altitude_unit"));
        }
        if fields.len() <= 10 {
            return Err(GpggaParseError::LackOfField("altitude_error"));
        }
        let altitude_error = match parse_decimal(fields[10].as_slice()) {
            Some(d) => d,
            None => {
                return Err(GpggaParseError::FailToParse("altitude_error"));
            },
        };
        if fields.len() <= 11 {
            return Err(GpggaParseError::LackOfField("altitude_error_unit"));
        }
        let d11 = fields[11].as_slice();
        let is_m11 = d11.len() == 1 && d11[0] == 'M';
        proof {
            if is_m11 {
                assert(fs[11] =~= seq!['M']);
            }
            if !is_m11 && fs[11] == seq!['M'] {
                assert(fs[11].len() == 1 && fs[11][0] == 'M');
                assert(false);
            }
        }
        if !is_m11 {
            return Err(GpggaParseError::FailToParse("altitude_error_unit"));
        }
        Ok(
            Gpgga {
                utc,
                latitude,
                longitude,
                status,
                satellite,
                hdop,
                altitude,
                altitude_error,
            },
        )
    }
}

} // verus!
