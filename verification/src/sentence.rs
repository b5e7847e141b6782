//! NMEA line classifier and sentence rebuilding.
//!
//! A validated sentence is split on its first comma into a head (such as
//! `$GPGGA`) and a tail (everything after the comma, including the
//! trailing `*HH`), together with the recomputed checksum byte, so that a
//! downstream sender can re-emit the line under another talker id without
//! re-scanning it.

use vstd::arithmetic::div_mod::lemma_fundamental_div_mod_converse;
use vstd::prelude::*;

use crate::nmea::COMMA;
use crate::nmea::STAR;
use crate::nmea::START;
use crate::nmea::hex_val;
use crate::nmea::is_hex_digit;
use crate::nmea::is_sentence;
use crate::nmea::xor;
use crate::nmea::xor_seq;

verus! {

/// A classified sentence: GGA lines split into head and tail, the two
/// proprietary position reports by their body, anything else raw.
#[derive(Debug, PartialEq, Eq)]
pub enum NmeaLine {
    GPGGA(Vec<u8>, Vec<u8>),
    GPFPD(Vec<u8>),
    GPHPD(Vec<u8>),
    Other(Vec<u8>),
}

/// Index of the first comma of `s` at or after `i`; `s.len()` if none.
pub open spec fn first_comma_at(s: Seq<u8>, i: int) -> int
    recommends
        0 <= i <= s.len(),
    decreases s.len() - i,
{
    if i < 0 || i >= s.len() {
        s.len() as int
    } else if s[i] == COMMA {
        i
    } else {
        first_comma_at(s, i + 1)
    }
}

/// Where a sentence splits: its first comma, or its end if it has none.
pub open spec fn split_point(s: Seq<u8>) -> int {
    first_comma_at(s, 0)
}

/// A head of the shape `$..GGA`: a GGA report under any talker id.
pub open spec fn is_gga_head(h: Seq<u8>) -> bool {
    h.len() == 6 && h[0] == START && h[3] == 71 && h[4] == 71 && h[5] == 65
}

/// The head `$GPFPD`.
pub open spec fn gpfpd_head() -> Seq<u8> {
    seq![START, 71u8, 80u8, 70u8, 80u8, 68u8]
}

/// The head `$GPHPD`.
pub open spec fn gphpd_head() -> Seq<u8> {
    seq![START, 71u8, 80u8, 72u8, 80u8, 68u8]
}

/// What `classify` returns for a sentence whose bytes are `s`.
pub open spec fn classify_matches(line: NmeaLine, s: Seq<u8>) -> bool {
    let p = split_point(s);
    match line {
        NmeaLine::GPGGA(h, t) => {
            &&& p < s.len()
            &&& is_gga_head(s.take(p))
            &&& h@ == s.take(p)
            &&& t@ == s.skip(p + 1)
        },
        NmeaLine::GPFPD(b) => {
            &&& p < s.len()
            &&& s.take(p) == gpfpd_head()
            &&& b@ == s.skip(p + 1)
        },
        NmeaLine::GPHPD(b) => {
            &&& p < s.len()
            &&& s.take(p) == gphpd_head()
            &&& b@ == s.skip(p + 1)
        },
        NmeaLine::Other(raw) => {
            &&& raw@ == s
            &&& (p < s.len() ==> {
                &&& !is_gga_head(s.take(p))
                &&& s.take(p) != gpfpd_head()
                &&& s.take(p) != gphpd_head()
            })
        },
    }
}

/// Bytes `[a, b)` of `s`, as an owned vector.
fn copy_range(s: &[u8], a: usize, b: usize) -> (v: Vec<u8>)
    requires
        a <= b <= s@.len(),
    ensures
        v@ == s@.subrange(a as int, b as int),
{
    let mut v: Vec<u8> = Vec::new();
    let mut k = a;
    while k < b
        invariant
            a <= k <= b <= s@.len(),
            v@ == s@.subrange(a as int, k as int),
        decreases b - k,
    {
        let c = s[k];
        v.push(c);
        proof {
            assert(v@ =~= s@.subrange(a as int, k + 1));
        }
        k += 1;
    }
    v
}

/// Index of the first comma of `s`, or `s.len()` if it has none.
fn find_comma(s: &[u8]) -> (p: usize)
    ensures
        p == split_point(s@),
        p <= s@.len(),
{
    let mut k: usize = 0;
    while k < s.len()
        invariant
            k <= s@.len(),
            split_point(s@) == first_comma_at(s@, k as int),
        decreases s@.len() - k,
    {
        if s[k] == COMMA {
            return k;
        }
        k += 1;
    }
    s.len()
}

/// Split a validated sentence on its first comma and classify it by its
/// head, returning the line and the recomputed checksum of its body.
pub fn classify(sentence: &[u8]) -> (r: (NmeaLine, u8))
    requires
        is_sentence(sentence@),
    ensures
        classify_matches(r.0, sentence@),
        r.1 == xor_seq(sentence@.subrange(1, sentence@.len() - 3)),
{
    let n = sentence.len();
    let p = find_comma(sentence);
    let body = copy_range(sentence, 1, n - 3);
    let cs = xor(body.as_slice());
    let line = if p < n {
        let head = copy_range(sentence, 0, p);
        let tail = copy_range(sentence, p + 1, n);
        proof {
            assert(head@ =~= sentence@.take(p as int));
            assert(tail@ =~= sentence@.skip(p + 1));
        }
        let gga = p == 6 && sentence[3] == 71 && sentence[4] == 71 && sentence[5] == 65;
        if gga {
            NmeaLine::GPGGA(head, tail)
        } else if p == 6 && sentence[1] == 71 && sentence[2] == 80 && sentence[3] == 70
            && sentence[4] == 80 && sentence[5] == 68 {
            proof {
                assert(head@ =~= gpfpd_head());
            }
            NmeaLine::GPFPD(tail)
        } else if p == 6 && sentence[1] == 71 && sentence[2] == 80 && sentence[3] == 72
            && sentence[4] == 80 && sentence[5] == 68 {
            proof {
                assert(head@ =~= gphpd_head());
            }
            NmeaLine::GPHPD(tail)
        } else {
            let raw = copy_range(sentence, 0, n);
            proof {
                assert(raw@ =~= sentence@);
                let hd = sentence@.take(p as int);
                if hd == gpfpd_head() {
                    assert(hd.len() == 6);
                    assert(hd[1] == 71 && hd[2] == 80 && hd[3] == 70 && hd[4] == 80 && hd[5]
                        == 68);
                    assert(false);
                }
                if hd == gphpd_head() {
                    assert(hd.len() == 6);
                    assert(hd[1] == 71 && hd[2] == 80 && hd[3] == 72 && hd[4] == 80 && hd[5]
                        == 68);
                    assert(false);
                }
            }
            NmeaLine::Other(raw)
        }
    } else {
        let raw = copy_range(sentence, 0, n);
        proof {
            assert(raw@ =~= sentence@);
        }
        NmeaLine::Other(raw)
    };
    (line, cs)
}

/// The canonical upper-case hex digit of `v`.
pub open spec fn hex_upper_digit(v: int) -> u8
    recommends
        0 <= v < 16,
{
    if v < 10 {
        (48 + v) as u8
    } else {
        (55 + v) as u8
    }
}

/// `t` without a trailing `*HH`, if it carries one.
pub open spec fn strip_star(t: Seq<u8>) -> Seq<u8> {
    if t.len() >= 3 && t[t.len() - 3] == STAR {
        t.take(t.len() - 3)
    } else {
        t
    }
}

/// The sentence that `rebuild_nema` emits: `$<head>,<tail>*HH` with the
/// old `*HH` of the tail dropped and `HH` the upper-case hex of `cs`.
pub open spec fn spec_rebuild(head: Seq<u8>, tail: Seq<u8>, cs: u8) -> Seq<u8> {
    seq![START] + head + seq![COMMA] + strip_star(tail) + seq![
        STAR,
        hex_upper_digit(cs as int / 16),
        hex_upper_digit(cs as int % 16),
    ]
}

/// Rebuild the canonical sentence `$<head>,<tail>*HH` from a head without
/// its `$`, a tail that may still carry its old `*HH` suffix, and the
/// checksum byte, emitted as upper-case hex.
pub fn rebuild_nema(head: &[u8], tail: &[u8], cs: u8) -> (r: Vec<u8>)
    ensures
        r@ == spec_rebuild(head@, tail@, cs),
{
    let mut r: Vec<u8> = Vec::new();
    r.push(START);
    let mut k: usize = 0;
    while k < head.len()
        invariant
            k <= head@.len(),
            r@ == seq![START] + head@.subrange(0, k as int),
        decreases head@.len() - k,
    {
        let c = head[k];
        r.push(c);
        proof {
            assert(r@ =~= seq![START] + head@.subrange(0, k + 1));
        }
        k += 1;
    }
    r.push(COMMA);
    let cut = if tail.len() >= 3 && tail[tail.len() - 3] == STAR {
        tail.len() - 3
    } else {
        tail.len()
    };
    let ghost r1 = r@;
    let mut j: usize = 0;
    while j < cut
        invariant
            j <= cut <= tail@.len(),
            r@ == r1 + tail@.subrange(0, j as int),
        decreases cut - j,
    {
        let c = tail[j];
        r.push(c);
        proof {
            assert(r@ =~= r1 + tail@.subrange(0, j + 1));
        }
        j += 1;
    }
    r.push(STAR);
    let hi = cs / 16;
    let lo = cs % 16;
    let d1 = if hi < 10 {
        48 + hi
    } else {
        55 + hi
    };
    let d2 = if lo < 10 {
        48 + lo
    } else {
        55 + lo
    };
    r.push(d1);
    r.push(d2);
    proof {
        assert(head@.subrange(0, head@.len() as int) =~= head@);
        assert(tail@.subrange(0, cut as int) =~= strip_star(tail@));
        assert(r@ =~= spec_rebuild(head@, tail@, cs));
    }
    r
}

/// The canonical form of a valid sentence: the same bytes with the two
/// checksum digits rewritten as upper-case hex.
pub open spec fn canonical_sentence(s: Seq<u8>) -> Seq<u8>
    recommends
        is_sentence(s),
{
    let cs = xor_seq(s.subrange(1, s.len() - 3));
    s.take(s.len() - 2) + seq![hex_upper_digit(cs as int / 16), hex_upper_digit(cs as int % 16)]
}

/// An upper-case hex digit reads back as its value.
proof fn lemma_hex_upper_digit(v: int)
    requires
        0 <= v < 16,
    ensures
        is_hex_digit(hex_upper_digit(v)),
        hex_val(hex_upper_digit(v)) == v,
{
}

/// Rebuild round-trip: for every valid sentence `$H,T*CC`, rebuilding
/// from its head `H` (without the `$`), its tail `T` (with the old
/// `*CC` still attached) and the checksum of its own body reproduces the
/// canonical form of the sentence, which is itself a valid sentence.
pub proof fn lemma_rebuild_round_trip(s: Seq<u8>, p: int)
    requires
        is_sentence(s),
        1 <= p < s.len() - 3,
        s[p] == COMMA,
    ensures
        spec_rebuild(s.subrange(1, p), s.subrange(p + 1, s.len() as int), xor_seq(
            s.subrange(1, s.len() - 3),
        )) == canonical_sentence(s),
        is_sentence(canonical_sentence(s)),
        canonical_sentence(s).len() == s.len(),
{
    let n = s.len() as int;
    let cs = xor_seq(s.subrange(1, n - 3));
    let head = s.subrange(1, p);
    let tail = s.subrange(p + 1, n);
    assert(tail.len() == n - p - 1 >= 3);
    assert(tail[tail.len() - 3] == s[n - 3]);
    assert(strip_star(tail) =~= s.subrange(p + 1, n - 3));
    let built = spec_rebuild(head, tail, cs);
    let canon = canonical_sentence(s);
    assert(hex_val(s[n - 2]) * 16 + hex_val(s[n - 1]) == cs);
    lemma_fundamental_div_mod_converse(cs as int, 16, hex_val(s[n - 2]), hex_val(s[n - 1]));
    assert(cs as int / 16 == hex_val(s[n - 2]));
    assert(cs as int % 16 == hex_val(s[n - 1]));
    assert(cs / 16 == cs as int / 16);
    assert(cs % 16 == cs as int % 16);
    lemma_hex_upper_digit(hex_val(s[n - 2]));
    lemma_hex_upper_digit(hex_val(s[n - 1]));
    assert(built =~= canon);
    // the canonical form is itself a valid sentence
    assert(canon.len() == n);
    assert(canon[0] == s[0]);
    assert(canon[n - 3] == s[n - 3]);
    assert forall|k: int| 1 <= k < n - 3 implies crate::nmea::is_body_byte(
        #[trigger] canon[k],
    ) by {
        assert(canon[k] == s[k]);
    }
    assert(canon.subrange(1, n - 3) =~= s.subrange(1, n - 3));
    assert(is_hex_digit(canon[n - 2]));
    assert(is_hex_digit(canon[n - 1]));
    assert(hex_val(canon[n - 2]) * 16 + hex_val(canon[n - 1]) == cs);
}

} // verus!
